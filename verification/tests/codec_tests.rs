use rube_voxel::codec::CodecError;
use rube_voxel::math::Vec3i;
use rube_voxel::tree::VoxelTree;
use rube_voxel::VoxelMap;

fn sample_tree() -> VoxelTree {
    let mut map = VoxelMap::new();
    map.set_voxel(Vec3i::new(0, 0, 0), 5);
    map.set_voxel(Vec3i::new(4, 1, 2), 9);
    map.set_voxel(Vec3i::new(15, 15, 15), 200);
    VoxelTree::from_map(&map, 4).expect("fits the pointer range")
}

fn trees_equal(a: &VoxelTree, b: &VoxelTree) -> bool {
    a.exp == b.exp && a.palette == b.palette && a.leaves == b.leaves && a.nodes.len()
        == b.nodes.len() && a.nodes.iter().zip(b.nodes.iter()).all(
        |(x, y)| {
            x.child_ptr_is_leaf == y.child_ptr_is_leaf && x.maskl == y.maskl && x.maskh
                == y.maskh && x.pad == y.pad
        },
    )
}

#[test]
fn encode_decode_round_trip() {
    let tree = sample_tree();
    let bytes = tree.encode();
    // Layout: 1024 palette bytes, 4 count bytes, 16 per node, leaves.
    assert_eq!(bytes.len(), 1028 + 16 * tree.nodes.len() + tree.leaves.len());
    let back = VoxelTree::decode(&bytes, tree.exp).expect("decodes");
    assert!(trees_equal(&tree, &back));
}

#[test]
fn decode_rejects_truncated_stream() {
    let tree = sample_tree();
    let mut bytes = tree.encode();
    // Shorter than the fixed header.
    let short: Vec<u8> = bytes[..100].to_vec();
    assert!(matches!(VoxelTree::decode(&short, 4), Err(CodecError::Truncated)));
    // Header intact but node records cut off.
    bytes.truncate(1030);
    assert!(matches!(VoxelTree::decode(&bytes, 4), Err(CodecError::Truncated)));
}

#[test]
fn decode_rejects_uneven_node_count() {
    let tree = sample_tree();
    let mut bytes = tree.encode();
    // A node byte count that is not a multiple of 16.
    bytes[1024] = 8;
    bytes[1025] = 0;
    bytes[1026] = 0;
    bytes[1027] = 0;
    assert!(matches!(VoxelTree::decode(&bytes, 4), Err(CodecError::BadNodeLength)));
}

#[test]
fn compress_decompress_round_trip() {
    let tree = sample_tree();
    let packed = tree.compress();
    // The compressor really transforms the stream.
    assert_ne!(packed, tree.encode());
    let back = VoxelTree::decompress(&packed, tree.exp).expect("round trips");
    assert!(trees_equal(&tree, &back));
}

#[test]
fn decompress_rejects_garbage() {
    let garbage: Vec<u8> = vec![1, 2, 3, 4, 5, 6, 7, 8];
    assert!(matches!(VoxelTree::decompress(&garbage, 4), Err(CodecError::Corrupted)));
}

#[test]
fn storage_round_trip_returns_equal_tree() {
    let tree = sample_tree();
    let back = tree.storage_round_trip().expect("never fails");
    assert!(trees_equal(&tree, &back));
}

#[test]
fn empty_tree_round_trips() {
    let map = VoxelMap::new();
    let tree = VoxelTree::from_map(&map, 4).expect("fits");
    assert_eq!(tree.nodes.len(), 1);
    assert_eq!(tree.leaves.len(), 0);
    let bytes = tree.encode();
    let back = VoxelTree::decode(&bytes, 4).expect("decodes");
    assert!(trees_equal(&tree, &back));
}
