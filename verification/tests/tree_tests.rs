use rube_voxel::math::Vec3i;
use rube_voxel::tree::{generate_tree, Node, VoxelTree};
use rube_voxel::VoxelMap;

fn v(x: i32, y: i32, z: i32) -> Vec3i {
    Vec3i::new(x, y, z)
}

fn mask_of(n: &Node) -> u64 {
    (n.maskh as u64) << 32 | n.maskl as u64
}

#[test]
fn empty_region_yields_sentinel_and_touches_nothing() {
    let map = VoxelMap::new();
    let mut nodes: Vec<Node> = vec![Node::empty()];
    let mut leaves: Vec<u8> = Vec::new();
    let root = generate_tree(&map, &mut nodes, &mut leaves, 6, v(0, 0, 0));
    assert_eq!(root.child_ptr_is_leaf, 0);
    assert_eq!(root.maskl, 0);
    assert_eq!(root.maskh, 0);
    assert_eq!(nodes.len(), 1);
    assert_eq!(leaves.len(), 0);
}

#[test]
fn empty_subcube_of_occupied_map_is_pruned() {
    let mut map = VoxelMap::new();
    map.set_voxel(v(0, 0, 0), 3);
    let mut nodes: Vec<Node> = vec![Node::empty()];
    let mut leaves: Vec<u8> = Vec::new();
    // The sub-cube at (16, 16, 16) holds no chunk at all.
    let sub = generate_tree(&map, &mut nodes, &mut leaves, 4, v(16, 16, 16));
    assert_eq!(sub.child_ptr_is_leaf, 0);
    assert_eq!(mask_of(&sub), 0);
    assert_eq!(nodes.len(), 1);
    assert_eq!(leaves.len(), 0);
}

#[test]
fn single_voxel_tree_layout() {
    let mut map = VoxelMap::new();
    map.set_voxel(v(0, 0, 0), 5);
    let tree = VoxelTree::from_map(&map, 4).expect("fits the pointer range");
    // Root at slot 0, one leaf child appended after it.
    assert_eq!(tree.nodes.len(), 2);
    let root = &tree.nodes[0];
    assert_eq!(mask_of(root), 1); // only child slot 0 occupied
    assert_eq!(root.child_ptr_is_leaf, 1 << 1); // run starts at node 1, internal
    let leaf = &tree.nodes[1];
    assert_eq!(leaf.child_ptr_is_leaf, 1); // leaf flag, run at leaf byte 0
    assert_eq!(mask_of(leaf), 1); // tile cell 0 occupied
    assert_eq!(tree.leaves, vec![5u8]);
    assert_eq!(tree.exp, 4);
}

#[test]
fn leaf_mask_counts_leaf_bytes_and_all_nonzero() {
    let mut map = VoxelMap::new();
    // Three voxels of one 4x4x4 tile: cells 0, 1 (x+1) and 16 (y+1).
    map.set_voxel(v(0, 0, 0), 1);
    map.set_voxel(v(1, 0, 0), 2);
    map.set_voxel(v(0, 1, 0), 3);
    let mut nodes: Vec<Node> = Vec::new();
    let mut leaves: Vec<u8> = Vec::new();
    let leaf = generate_tree(&map, &mut nodes, &mut leaves, 2, v(0, 0, 0));
    assert_eq!(leaf.child_ptr_is_leaf & 1, 1);
    let popcount = mask_of(&leaf).count_ones() as usize;
    assert_eq!(popcount, leaves.len());
    assert_eq!(mask_of(&leaf), 0b1_0000_0000_0000_0011);
    // Ascending bit order: cell 0, cell 1, cell 16.
    assert_eq!(leaves, vec![1u8, 2, 3]);
    assert!(leaves.iter().all(|&b| b != 0));
}

#[test]
fn internal_mask_counts_children_and_all_nonempty() {
    let mut map = VoxelMap::new();
    // Two occupied 4-cubes inside one 16-cube: child slots 0 and 1.
    map.set_voxel(v(0, 0, 0), 1);
    map.set_voxel(v(4, 0, 0), 2);
    let tree = VoxelTree::from_map(&map, 4).expect("fits the pointer range");
    let root = &tree.nodes[0];
    assert_eq!(root.child_ptr_is_leaf & 1, 0);
    assert_eq!(mask_of(root), 0b11);
    let popcount = mask_of(root).count_ones() as usize;
    let run = (root.child_ptr_is_leaf >> 1) as usize;
    assert_eq!(popcount, 2);
    assert_eq!(tree.nodes.len(), run + popcount);
    for k in 0..popcount {
        assert!(mask_of(&tree.nodes[run + k]) != 0);
    }
    assert_eq!(tree.leaves, vec![1u8, 2]);
}

#[test]
fn child_slot_bit_layout_x_z_y() {
    // Slot bits: 0-1 select x, 2-3 select z, 4-5 select y, each offset by a
    // quarter of the cube side.
    let mut map = VoxelMap::new();
    map.set_voxel(v(4, 0, 0), 1); // dx = 1 -> slot 1
    let t1 = VoxelTree::from_map(&map, 4).unwrap();
    assert_eq!(mask_of(&t1.nodes[0]), 1 << 1);

    let mut map2 = VoxelMap::new();
    map2.set_voxel(v(0, 0, 4), 1); // dz = 1 -> slot 4
    let t2 = VoxelTree::from_map(&map2, 4).unwrap();
    assert_eq!(mask_of(&t2.nodes[0]), 1 << 4);

    let mut map3 = VoxelMap::new();
    map3.set_voxel(v(0, 4, 0), 1); // dy = 1 -> slot 16
    let t3 = VoxelTree::from_map(&map3, 4).unwrap();
    assert_eq!(mask_of(&t3.nodes[0]), 1 << 16);
}

#[test]
fn two_level_tree_collects_leaf_runs_in_slot_order() {
    let mut map = VoxelMap::new();
    // Two voxels in different 16-cubes of a 64-cube world.
    map.set_voxel(v(0, 0, 0), 1);
    map.set_voxel(v(16, 0, 0), 2);
    let tree = VoxelTree::from_map(&map, 6).expect("fits the pointer range");
    let root = &tree.nodes[0];
    assert_eq!(mask_of(root), 0b11);
    assert_eq!(root.child_ptr_is_leaf & 1, 0);
    // The leaf payload lists the tiles in ascending slot order at every
    // level.
    assert_eq!(tree.leaves, vec![1u8, 2]);
    // Every internal node's run holds exactly popcount(mask) nonempty
    // children; every leaf node's run stays inside the leaf array.
    for n in &tree.nodes {
        let m = mask_of(n);
        if m == 0 {
            continue;
        }
        let count = m.count_ones() as usize;
        let ptr = (n.child_ptr_is_leaf >> 1) as usize;
        if n.child_ptr_is_leaf & 1 == 1 {
            assert!(ptr + count <= tree.leaves.len());
            assert!(tree.leaves[ptr..ptr + count].iter().all(|&b| b != 0));
        } else {
            assert!(ptr + count <= tree.nodes.len());
            assert!((0..count).all(|k| mask_of(&tree.nodes[ptr + k]) != 0));
        }
    }
}
