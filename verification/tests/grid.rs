use noise_cdf::grid::{
    cell_world_pos, check_world_fits, uniform_idx_as_vec2, vec2_as_uniform_idx, GridSize, Vec2,
    MAX_SIDE,
};

#[test]
fn index_and_coordinate_round_trip() {
    let size = GridSize::new(5, 3).unwrap();
    for idx in 0..15usize {
        let pos = uniform_idx_as_vec2(&size, idx);
        assert_eq!(pos, Vec2 { x: (idx % 5) as i32, y: (idx / 5) as i32 });
        assert_eq!(vec2_as_uniform_idx(&size, pos), idx);
    }
}

#[test]
fn coordinate_and_index_round_trip() {
    let size = GridSize::new(4, 6).unwrap();
    for y in 0..6 {
        for x in 0..4 {
            let idx = vec2_as_uniform_idx(&size, Vec2 { x, y });
            assert_eq!(idx, (y * 4 + x) as usize);
            assert_eq!(uniform_idx_as_vec2(&size, idx), Vec2 { x, y });
        }
    }
}

#[test]
fn coordinate_is_remainder_and_quotient() {
    let size = GridSize::new(1024, 1024).unwrap();
    assert_eq!(uniform_idx_as_vec2(&size, 0), Vec2 { x: 0, y: 0 });
    assert_eq!(uniform_idx_as_vec2(&size, 1023), Vec2 { x: 1023, y: 0 });
    assert_eq!(uniform_idx_as_vec2(&size, 1024), Vec2 { x: 0, y: 1 });
    assert_eq!(uniform_idx_as_vec2(&size, 5 * 1024 + 7), Vec2 { x: 7, y: 5 });
    assert_eq!(uniform_idx_as_vec2(&size, 1024 * 1024 - 1), Vec2 { x: 1023, y: 1023 });
    assert_eq!(vec2_as_uniform_idx(&size, Vec2 { x: 7, y: 5 }), 5127);
}

#[test]
fn distinct_cells_have_distinct_indices() {
    let size = GridSize::new(3, 3).unwrap();
    let mut seen = vec![false; 9];
    for y in 0..3 {
        for x in 0..3 {
            let idx = vec2_as_uniform_idx(&size, Vec2 { x, y });
            assert!(!seen[idx]);
            seen[idx] = true;
        }
    }
    assert!(seen.iter().all(|s| *s));
}

#[test]
fn grid_size_accessors() {
    let size = GridSize::new(7, 2).unwrap();
    assert_eq!(size.width(), 7);
    assert_eq!(size.height(), 2);
    assert_eq!(size.cells(), 14);
    let one = GridSize::new(1, 1).unwrap();
    assert_eq!(one.cells(), 1);
    assert_eq!(uniform_idx_as_vec2(&one, 0), Vec2 { x: 0, y: 0 });
}

#[test]
fn grid_size_rejects_inadmissible_dimensions() {
    assert!(GridSize::new(0, 5).is_none());
    assert!(GridSize::new(5, 0).is_none());
    assert!(GridSize::new(0, 0).is_none());
    assert!(GridSize::new(MAX_SIDE + 1, 1).is_none());
    assert!(GridSize::new(1, MAX_SIDE + 1).is_none());
    assert!(GridSize::new(MAX_SIDE, 1).is_some());
    assert!(GridSize::new(1, MAX_SIDE).is_some());
    if usize::BITS == 64 {
        assert!(GridSize::new(MAX_SIDE, MAX_SIDE).is_some());
    } else {
        assert!(GridSize::new(MAX_SIDE, MAX_SIDE).is_none());
    }
}

#[test]
fn world_position_scales_the_coordinate() {
    let size = GridSize::new(4, 3).unwrap();
    let cell = Vec2 { x: 32, y: 32 };
    assert!(check_world_fits(&size, cell));
    assert_eq!(cell_world_pos(&size, cell, 0), Vec2 { x: 0, y: 0 });
    assert_eq!(cell_world_pos(&size, cell, 1), Vec2 { x: 32, y: 0 });
    assert_eq!(cell_world_pos(&size, cell, 4), Vec2 { x: 0, y: 32 });
    assert_eq!(cell_world_pos(&size, cell, 11), Vec2 { x: 96, y: 64 });
    let skew = Vec2 { x: -3, y: 5 };
    assert!(check_world_fits(&size, skew));
    assert_eq!(cell_world_pos(&size, skew, 7), Vec2 { x: -9, y: 5 });
}

#[test]
fn world_fit_is_decided_at_the_far_corner() {
    let size = GridSize::new(3, 2).unwrap();
    assert!(check_world_fits(&size, Vec2 { x: 0x3fff_ffff, y: 0x7fff_ffff }));
    assert!(!check_world_fits(&size, Vec2 { x: 0x4000_0000, y: 1 }));
    assert!(check_world_fits(&size, Vec2 { x: -0x4000_0000, y: i32::MIN }));
    assert!(!check_world_fits(&size, Vec2 { x: -0x4000_0001, y: 1 }));
    assert_eq!(
        cell_world_pos(&size, Vec2 { x: 0x3fff_ffff, y: 0x7fff_ffff }, 5),
        Vec2 { x: 0x7fff_fffe, y: 0x7fff_ffff }
    );
    let line = GridSize::new(1, 1).unwrap();
    assert!(check_world_fits(&line, Vec2 { x: i32::MAX, y: i32::MIN }));
}
