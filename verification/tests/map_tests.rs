use rube_voxel::math::Vec3i;
use rube_voxel::VoxelMap;

fn v(x: i32, y: i32, z: i32) -> Vec3i {
    Vec3i::new(x, y, z)
}

#[test]
fn region_query_zero_size_is_false() {
    let mut map = VoxelMap::new();
    map.set_voxel(v(0, 0, 0), 1);
    assert!(!map.has_bricks_in_region(v(0, 0, 0), 0));
    assert!(!map.has_bricks_in_region(v(-100, 50, 3), 0));
}

#[test]
fn region_query_hit_and_miss() {
    let mut map = VoxelMap::new();
    map.set_voxel(v(17, 2, 9), 5);
    // The covering region finds the one stored chunk.
    assert!(map.has_bricks_in_region(v(16, 0, 8), 8));
    assert!(map.has_bricks_in_region(v(0, 0, 0), 32));
    // A disjoint region does not.
    assert!(!map.has_bricks_in_region(v(64, 64, 64), 8));
    assert!(!map.has_bricks_in_region(v(0, 0, 0), 8));
}

#[test]
fn brick_lookup_follows_chunk_coordinates() {
    let mut map = VoxelMap::new();
    map.set_voxel(v(9, 0, 0), 7);
    // Voxel 9 lives in chunk 1 on the x axis; any voxel of that chunk finds
    // the brick.
    let b = map.brick(v(8, 0, 0)).expect("brick stored");
    assert_eq!(b.cell(brick_idx(1, 0, 0)), 7);
    assert!(map.brick(v(0, 0, 0)).is_none());
    assert!(map.brick(v(16, 0, 0)).is_none());
}

fn brick_idx(x: i32, y: i32, z: i32) -> usize {
    rube_voxel::Brick::voxel_index(Vec3i::new(x, y, z))
}

#[test]
fn voxelization_marks_extremes_and_not_beyond() {
    // The map-level half of the coverage property: marking the corner
    // voxels of a [0, R) volume stores them, and the out-of-range probe
    // finds nothing.
    let r: i32 = 16;
    let mut map = VoxelMap::new();
    map.set_voxel(v(0, 0, 0), 1);
    map.set_voxel(v(r - 1, r - 1, r - 1), 1);
    let b0 = map.brick(v(0, 0, 0)).expect("corner brick");
    assert_eq!(b0.cell(brick_idx(0, 0, 0)), 1);
    let b1 = map.brick(v(r - 1, r - 1, r - 1)).expect("far corner brick");
    assert_eq!(b1.cell(brick_idx(7, 7, 7)), 1);
    assert!(map.brick(v(r, 0, 0)).is_none());
}

#[test]
fn shift_to_positive_moves_negative_chunks() {
    let mut map = VoxelMap::new();
    map.set_voxel(v(-8, 0, 0), 1); // chunk (-1, 0, 0), cell 0
    map.set_voxel(v(7, 0, 0), 2); // chunk (0, 0, 0), cell 7
    map.shift_to_positive();
    // Every chunk moved by +1 along x; the minimum is now zero.
    let b0 = map.brick(v(0, 0, 0)).expect("shifted brick");
    assert_eq!(b0.cell(brick_idx(0, 0, 0)), 1);
    let b1 = map.brick(v(8, 0, 0)).expect("shifted brick");
    assert_eq!(b1.cell(brick_idx(7, 0, 0)), 2);
    for e in &map.chunks {
        assert!(e.pos.x >= 0 && e.pos.y >= 0 && e.pos.z >= 0);
    }
}

#[test]
fn shift_to_positive_is_idempotent() {
    let mut map = VoxelMap::new();
    map.set_voxel(v(-20, -3, 5), 9);
    map.set_voxel(v(11, 0, -1), 8);
    map.shift_to_positive();
    let keys_once: Vec<(i32, i32, i32)> =
        map.chunks.iter().map(|e| (e.pos.x, e.pos.y, e.pos.z)).collect();
    map.shift_to_positive();
    let keys_twice: Vec<(i32, i32, i32)> =
        map.chunks.iter().map(|e| (e.pos.x, e.pos.y, e.pos.z)).collect();
    assert_eq!(keys_once, keys_twice);
}

#[test]
fn shift_to_positive_noop_on_nonnegative() {
    let mut map = VoxelMap::new();
    map.set_voxel(v(3, 4, 5), 1);
    map.shift_to_positive();
    let b = map.brick(v(3, 4, 5)).expect("unmoved brick");
    assert_eq!(b.cell(brick_idx(3, 4, 5)), 1);
}

#[test]
fn shift_to_positive_empty_map_is_noop() {
    let mut map = VoxelMap::new();
    map.shift_to_positive();
    assert_eq!(map.chunks.len(), 0);
}
