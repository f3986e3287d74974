use maze_fps::collision::{slide, solid_cells_around, InputState, Slide};

const RADIUS: f32 = 0.2;

fn can_stand(x: f32, y: f32, grid: &Vec<Vec<u8>>) -> bool {
    let cells = solid_cells_around(grid, x.floor() as i32, y.floor() as i32);
    cells.iter().all(|&(gx, gy)| {
        let cx = x.clamp(gx as f32, gx as f32 + 1.0);
        let cy = y.clamp(gy as f32, gy as f32 + 1.0);
        let (dx, dy) = (x - cx, y - cy);
        !(dx * dx + dy * dy < RADIUS * RADIUS)
    })
}

fn keys() -> InputState {
    InputState {
        rotate_left: false,
        rotate_right: false,
        forward: false,
        back: false,
        strafe_left: false,
        strafe_right: false,
    }
}

#[test]
fn neighbourhood_without_walls_yields_nothing() {
    let grid = vec![vec![0u8; 3]; 3];
    assert_eq!(solid_cells_around(&grid, 1, 1), Vec::new());
    assert!(can_stand(1.5, 1.5, &grid));
    assert!(can_stand(1.01, 1.99, &grid));
}

#[test]
fn neighbourhood_is_read_row_by_row() {
    let grid = vec![vec![1u8, 0, 1], vec![0, 0, 1], vec![1, 1, 0]];
    assert_eq!(
        solid_cells_around(&grid, 1, 1),
        vec![(0, 0), (2, 0), (2, 1), (0, 2), (1, 2)]
    );
}

#[test]
fn cells_outside_the_grid_are_passed_over() {
    let grid = vec![vec![1u8; 3]; 3];
    assert_eq!(solid_cells_around(&grid, 0, 0), vec![(0, 0), (1, 0), (0, 1), (1, 1)]);
    assert_eq!(solid_cells_around(&grid, 2, 2), vec![(1, 1), (2, 1), (1, 2), (2, 2)]);
    assert_eq!(solid_cells_around(&grid, 3, 1), vec![(2, 0), (2, 1), (2, 2)]);
    assert_eq!(solid_cells_around(&grid, -1, -1), vec![(0, 0)]);
    assert_eq!(solid_cells_around(&grid, 10, 10), Vec::new());
    assert_eq!(solid_cells_around(&grid, i32::MIN, i32::MAX), Vec::new());
    assert_eq!(solid_cells_around(&Vec::new(), 0, 0), Vec::new());
}

#[test]
fn centre_inside_a_solid_cell_cannot_stand() {
    let grid = vec![vec![0u8, 0, 0], vec![0, 1, 0], vec![0, 0, 0]];
    assert!(solid_cells_around(&grid, 1, 1).contains(&(1, 1)));
    assert!(!can_stand(1.5, 1.5, &grid));
    assert!(!can_stand(1.0, 1.0, &grid));
}

#[test]
fn circle_may_come_as_close_as_its_radius() {
    let grid = vec![vec![0u8, 0, 1], vec![0, 0, 1], vec![0, 0, 1]];
    assert!(can_stand(1.5, 1.5, &grid));
    assert!(can_stand(1.79, 1.5, &grid));
    assert!(!can_stand(1.81, 1.5, &grid));
}

#[test]
fn whole_move_applies_when_it_is_free() {
    assert_eq!(slide(true, true, true), Slide { move_x: true, move_y: true });
    assert_eq!(slide(true, false, false), Slide { move_x: true, move_y: true });
}

#[test]
fn blocked_move_slides_along_the_open_axis() {
    assert_eq!(slide(false, true, false), Slide { move_x: true, move_y: false });
    assert_eq!(slide(false, false, true), Slide { move_x: false, move_y: true });
    assert_eq!(slide(false, false, false), Slide { move_x: false, move_y: false });
    assert_eq!(slide(false, true, true), Slide { move_x: true, move_y: true });
}

#[test]
fn diagonal_move_into_a_wall_keeps_the_free_component() {
    // A wall to the right of the middle cell blocks the move in x only.
    let grid = vec![vec![0u8, 0, 1], vec![0, 0, 1], vec![0, 0, 1]];
    let (x, y) = (1.7f32, 1.5f32);
    let (mx, my) = (0.2f32, 0.2f32);
    let applied = slide(
        can_stand(x + mx, y + my, &grid),
        can_stand(x + mx, y, &grid),
        can_stand(x, y + my, &grid),
    );
    assert_eq!(applied, Slide { move_x: false, move_y: true });
    // A wall below the middle cell blocks the move in y only.
    let grid = vec![vec![0u8, 0, 0], vec![0, 0, 0], vec![1, 1, 1]];
    let (x, y) = (1.5f32, 1.7f32);
    let applied = slide(
        can_stand(x + mx, y + my, &grid),
        can_stand(x + mx, y, &grid),
        can_stand(x, y + my, &grid),
    );
    assert_eq!(applied, Slide { move_x: true, move_y: false });
}

#[test]
fn opposite_keys_cancel() {
    let mut input = keys();
    assert_eq!((input.turn(), input.advance(), input.strafe()), (0, 0, 0));
    input.forward = true;
    input.strafe_left = true;
    input.rotate_right = true;
    assert_eq!((input.turn(), input.advance(), input.strafe()), (1, 1, -1));
    input.back = true;
    input.strafe_right = true;
    input.rotate_left = true;
    assert_eq!((input.turn(), input.advance(), input.strafe()), (0, 0, 0));
    input.forward = false;
    input.strafe_left = false;
    input.rotate_right = false;
    assert_eq!((input.turn(), input.advance(), input.strafe()), (-1, -1, 1));
}
