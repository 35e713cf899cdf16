use rube_voxel::math::Vec3i;
use rube_voxel::scene::{
    descend_scene, pack_rgba, parse_rot_byte, parse_translation, rot_compose, rot_from_byte,
    voxelize_scene, Rot, SceneGraph, SceneVoxel, VoxModel,
};
use rube_voxel::{Brick, VoxelMap};

fn v(x: i32, y: i32, z: i32) -> Vec3i {
    Vec3i::new(x, y, z)
}

fn cell(map: &VoxelMap, p: Vec3i) -> u8 {
    match map.brick(p) {
        Some(b) => {
            let local = p.local();
            b.cell(Brick::voxel_index(local))
        },
        None => 0,
    }
}

fn unit_model(index: u8) -> VoxModel {
    VoxModel { size: v(1, 1, 1), voxels: vec![SceneVoxel { pos: v(0, 0, 0), index }] }
}

fn white_palette() -> Vec<u32> {
    vec![u32::MAX; 256]
}

#[test]
fn parse_translation_triples() {
    assert_eq!(parse_translation(&b"4 0 0".to_vec()), Some(v(4, 0, 0)));
    assert_eq!(parse_translation(&b"  -3\t7 +2 ".to_vec()), Some(v(-3, 7, 2)));
    assert_eq!(parse_translation(&b"-2147483648 2147483647 0".to_vec()), Some(v(i32::MIN, i32::MAX, 0)));
    assert_eq!(parse_translation(&b"1 2".to_vec()), None);
    assert_eq!(parse_translation(&b"1 2 3 4".to_vec()), None);
    assert_eq!(parse_translation(&b"a b c".to_vec()), None);
    assert_eq!(parse_translation(&b"2147483648 0 0".to_vec()), None);
    assert_eq!(parse_translation(&b"".to_vec()), None);
}

#[test]
fn parse_rotation_byte() {
    assert_eq!(parse_rot_byte(&b" 40 ".to_vec()), Some(40));
    assert_eq!(parse_rot_byte(&b"0".to_vec()), Some(0));
    assert_eq!(parse_rot_byte(&b"255".to_vec()), Some(255));
    assert_eq!(parse_rot_byte(&b"256".to_vec()), None);
    assert_eq!(parse_rot_byte(&b"-1".to_vec()), None);
    assert_eq!(parse_rot_byte(&b"1 2".to_vec()), None);
    assert_eq!(parse_rot_byte(&b"".to_vec()), None);
}

#[test]
fn rotation_byte_decoding() {
    // Byte 4: output x takes input x, output y takes input y: the identity.
    let id = rot_from_byte(4).expect("valid");
    assert_eq!(id, Rot { ix: 0, iy: 1, iz: 2, sx: false, sy: false, sz: false });
    // Colliding or out-of-range axis fields decode to nothing.
    assert!(rot_from_byte(0).is_none()); // both fields select axis 0
    assert!(rot_from_byte(3).is_none()); // first field out of range
    // Sign bits flip the axes.
    let f = rot_from_byte(4 | 16).expect("valid");
    assert!(f.sx && !f.sy && !f.sz);
}

#[test]
fn rotation_composition_is_application_in_sequence() {
    // b swaps x and y; a flips x. Composed: x' = -(y), y' = x.
    let b = rot_from_byte(1).expect("valid"); // ix = 1, iy = 0
    let a = rot_from_byte(4 | 16).expect("valid"); // identity with x flipped
    let c = rot_compose(a, b);
    assert_eq!(c, Rot { ix: 1, iy: 0, iz: 2, sx: true, sy: false, sz: false });
}

#[test]
fn scene_translation_offsets_voxels() {
    let models = vec![unit_model(7)];
    let plain = SceneGraph::Shape { model_ids: vec![0] };
    let moved = SceneGraph::Transform {
        t_attr: Some(b"4 0 0".to_vec()),
        r_attr: None,
        child: Box::new(SceneGraph::Shape { model_ids: vec![0] }),
    };
    let pal = white_palette();
    let map_plain = voxelize_scene(&models, &plain, &pal);
    let map_moved = voxelize_scene(&models, &moved, &pal);
    assert_eq!(cell(&map_plain, v(0, 0, 0)), 7);
    assert_eq!(cell(&map_moved, v(4, 0, 0)), 7);
    assert_eq!(cell(&map_moved, v(0, 0, 0)), 0);
}

#[test]
fn scene_translation_swaps_y_and_z() {
    // The engine convention swaps the y and z axes after the transform, so
    // a scene-space translation of (0, 5, 0) lands on the z axis.
    let models = vec![unit_model(9)];
    let graph = SceneGraph::Transform {
        t_attr: Some(b"0 5 0".to_vec()),
        r_attr: None,
        child: Box::new(SceneGraph::Shape { model_ids: vec![0] }),
    };
    let mut map = VoxelMap::new();
    descend_scene(&mut map, &graph, &models, 0, 0, 0, Rot { ix: 0, iy: 1, iz: 2, sx: false, sy: false, sz: false });
    assert_eq!(cell(&map, v(0, 0, 5)), 9);
    assert_eq!(cell(&map, v(0, 5, 0)), 0);
}

#[test]
fn scene_rotation_turns_child_translation() {
    // The outer rotation swaps x and y in scene space; the inner translation
    // (1, 2, 3) becomes (2, 1, 3), then the y/z swap places it at (2, 3, 1).
    let models = vec![unit_model(3)];
    let graph = SceneGraph::Transform {
        t_attr: None,
        r_attr: Some(b"1".to_vec()),
        child: Box::new(SceneGraph::Transform {
            t_attr: Some(b"1 2 3".to_vec()),
            r_attr: None,
            child: Box::new(SceneGraph::Shape { model_ids: vec![0] }),
        }),
    };
    let pal = white_palette();
    let map = voxelize_scene(&models, &graph, &pal);
    assert_eq!(cell(&map, v(2, 3, 1)), 3);
}

#[test]
fn scene_model_rotation_about_center() {
    // A 3-cube model with one voxel at (2, 1, 1): relative to the center
    // (1, 1, 1) that is (+1, 0, 0). Flipping x moves it to (-1, 0, 0),
    // which the final shift pushes back to nonnegative coordinates.
    let models = vec![VoxModel {
        size: v(3, 3, 3),
        voxels: vec![
            SceneVoxel { pos: v(2, 1, 1), index: 1 },
            SceneVoxel { pos: v(1, 1, 1), index: 2 },
        ],
    }];
    let graph = SceneGraph::Transform {
        t_attr: None,
        r_attr: Some(b"20".to_vec()), // identity axes (byte 4) with x flipped (16)
        child: Box::new(SceneGraph::Shape { model_ids: vec![0] }),
    };
    let pal = white_palette();
    let map = voxelize_scene(&models, &graph, &pal);
    // After the flip the two voxels sit at x = -1 and x = 0; the shift moves
    // the whole chunk range to start at 0, keeping their relative offset.
    let (mut found1, mut found2) = (None, None);
    for x in 0..16 {
        if cell(&map, v(x, 0, 0)) == 1 {
            found1 = Some(x);
        }
        if cell(&map, v(x, 0, 0)) == 2 {
            found2 = Some(x);
        }
    }
    let x1 = found1.expect("flipped voxel present");
    let x2 = found2.expect("center voxel present");
    assert_eq!(x2 - x1, 1);
}

#[test]
fn group_bakes_all_children() {
    let models = vec![unit_model(1)];
    let graph = SceneGraph::Group {
        children: vec![
            SceneGraph::Shape { model_ids: vec![0] },
            SceneGraph::Transform {
                t_attr: Some(b"2 0 0".to_vec()),
                r_attr: None,
                child: Box::new(SceneGraph::Shape { model_ids: vec![0] }),
            },
        ],
    };
    let pal = white_palette();
    let map = voxelize_scene(&models, &graph, &pal);
    assert_eq!(cell(&map, v(0, 0, 0)), 1);
    assert_eq!(cell(&map, v(2, 0, 0)), 1);
}

#[test]
fn malformed_attributes_are_ignored() {
    // An unparsable translation or rotation attribute leaves the inherited
    // transform in place.
    let models = vec![unit_model(6)];
    let graph = SceneGraph::Transform {
        t_attr: Some(b"not a triple".to_vec()),
        r_attr: Some(b"xyz".to_vec()),
        child: Box::new(SceneGraph::Shape { model_ids: vec![0] }),
    };
    let pal = white_palette();
    let map = voxelize_scene(&models, &graph, &pal);
    assert_eq!(cell(&map, v(0, 0, 0)), 6);
}

#[test]
fn packed_palette_entry() {
    assert_eq!(pack_rgba(0x12, 0x34, 0x56, 0x78), 0x78563412);
    assert_eq!(pack_rgba(255, 255, 255, 255), u32::MAX);
    assert_eq!(pack_rgba(0, 0, 0, 0), 0);
}

#[test]
fn later_write_wins_on_the_same_cell() {
    // Two shapes of one group bake the same cell; the child visited later
    // overwrites the earlier value.
    let models = vec![unit_model(1), unit_model(2)];
    let graph = SceneGraph::Group {
        children: vec![
            SceneGraph::Shape { model_ids: vec![0] },
            SceneGraph::Shape { model_ids: vec![1] },
        ],
    };
    let pal = white_palette();
    let map = voxelize_scene(&models, &graph, &pal);
    assert_eq!(cell(&map, v(0, 0, 0)), 2);
}

#[test]
fn empty_palette_index_writes_nothing() {
    // A source voxel with palette index 0 is skipped: no brick comes into
    // being for it, so every stored brick keeps a nonzero cell.
    let models = vec![VoxModel {
        size: v(1, 1, 1),
        voxels: vec![SceneVoxel { pos: v(0, 0, 0), index: 0 }],
    }];
    let graph = SceneGraph::Shape { model_ids: vec![0] };
    let pal = white_palette();
    let map = voxelize_scene(&models, &graph, &pal);
    assert_eq!(map.chunks.len(), 0);

    // Mixed with a real write, only the nonzero voxel lands.
    let models2 = vec![VoxModel {
        size: v(2, 1, 1),
        voxels: vec![
            SceneVoxel { pos: v(0, 0, 0), index: 0 },
            SceneVoxel { pos: v(1, 0, 0), index: 9 },
        ],
    }];
    let graph2 = SceneGraph::Shape { model_ids: vec![0] };
    let map2 = voxelize_scene(&models2, &graph2, &pal);
    for e in &map2.chunks {
        assert!(e.brick.data.iter().any(|&b| b != 0));
    }
}
