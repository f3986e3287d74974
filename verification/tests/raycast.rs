use maze_fps::raycast::{base_tone, probe, Probe, RayWalk};

fn corridor() -> Vec<Vec<u8>> {
    vec![
        vec![1u8, 1, 1, 1, 1, 1],
        vec![1, 0, 0, 0, 0, 1],
        vec![1, 1, 1, 1, 1, 1],
    ]
}

#[test]
fn probe_tells_walls_from_floor_and_from_outside() {
    let grid = corridor();
    assert_eq!(probe(&grid, 1, 1), Probe::Open);
    assert_eq!(probe(&grid, 0, 1), Probe::Wall);
    assert_eq!(probe(&grid, 5, 2), Probe::Wall);
    assert_eq!(probe(&grid, -1, 1), Probe::Outside);
    assert_eq!(probe(&grid, 1, -1), Probe::Outside);
    assert_eq!(probe(&grid, 6, 1), Probe::Outside);
    assert_eq!(probe(&grid, 1, 3), Probe::Outside);
    assert_eq!(probe(&Vec::new(), 0, 0), Probe::Outside);
}

#[test]
fn ray_down_a_corridor_ends_on_the_far_wall() {
    let grid = corridor();
    let (px, _py) = (1.5f32, 1.5f32);
    let mut walk = RayWalk::new(1, 1, false, false);
    assert_eq!(walk.advance(&grid, true), Probe::Open);
    assert_eq!(walk.advance(&grid, true), Probe::Open);
    assert_eq!(walk.advance(&grid, true), Probe::Open);
    assert_eq!(walk.advance(&grid, true), Probe::Wall);
    assert_eq!((walk.map_x, walk.map_y, walk.side), (5, 1, 0));
    assert_eq!(walk.face(), 5);
    // The wall face is 3.5 cells from the observer, along a ray of
    // direction (1, 0).
    let perp = ((walk.face() as f32 - px) / 1.0).abs();
    assert!((perp - 3.5).abs() < 1e-6);
}

#[test]
fn ray_backwards_ends_on_the_near_face() {
    let grid = corridor();
    let mut walk = RayWalk::new(4, 1, true, true);
    assert_eq!(walk.advance(&grid, true), Probe::Open);
    assert_eq!(walk.advance(&grid, true), Probe::Open);
    assert_eq!(walk.advance(&grid, true), Probe::Open);
    assert_eq!(walk.advance(&grid, true), Probe::Wall);
    assert_eq!((walk.map_x, walk.map_y, walk.side), (0, 1, 0));
    // Stepping towards smaller columns, the ray meets the cell on its
    // far side: the face at column 1.
    assert_eq!(walk.face(), 1);
    let perp = ((walk.face() as f32 - 4.5) / -1.0).abs();
    assert!((perp - 3.5).abs() < 1e-6);
}

#[test]
fn ray_across_rows_records_the_other_side() {
    let grid = corridor();
    let mut walk = RayWalk::new(2, 1, false, false);
    assert_eq!(walk.advance(&grid, false), Probe::Wall);
    assert_eq!((walk.map_x, walk.map_y, walk.side), (2, 2, 1));
    assert_eq!(walk.face(), 2);
    let mut walk = RayWalk::new(2, 1, false, true);
    assert_eq!(walk.advance(&grid, false), Probe::Wall);
    assert_eq!((walk.map_x, walk.map_y, walk.side), (2, 0, 1));
    assert_eq!(walk.face(), 1);
}

#[test]
fn ray_that_leaves_the_grid_hits_nothing() {
    let grid = vec![vec![0u8; 3]; 2];
    let mut walk = RayWalk::new(1, 1, false, false);
    assert_eq!(walk.advance(&grid, true), Probe::Open);
    assert_eq!(walk.advance(&grid, true), Probe::Outside);
    let mut walk = RayWalk::new(1, 1, false, false);
    assert_eq!(walk.advance(&grid, false), Probe::Outside);
    let mut walk = RayWalk::new(-7, 40, true, false);
    assert_eq!(walk.advance(&grid, true), Probe::Outside);
}

#[test]
fn wall_tone_depends_on_the_side() {
    assert_eq!(base_tone(0), (43, 43, 43));
    assert_eq!(base_tone(1), (68, 68, 68));
}
