use maze_fps::screen::{background_rows, entity_columns, wall_column, DrawCommand, ENTITY_COLOR};

fn line(x: i32, y0: i32, y1: i32, color: (u8, u8, u8)) -> DrawCommand {
    DrawCommand::Line { x0: x, y0, x1: x, y1, color }
}

fn stripe(x: i32, y: i32, h: u32) -> DrawCommand {
    DrawCommand::FillRect { x, y, w: 1, h, color: ENTITY_COLOR }
}

#[test]
fn wall_is_centred_in_the_view() {
    assert_eq!(wall_column(7, 900, 450, (1, 2, 3)), Some(line(7, 225, 675, (1, 2, 3))));
    assert_eq!(wall_column(0, 901, 100, (9, 9, 9)), Some(line(0, 400, 500, (9, 9, 9))));
}

#[test]
fn wall_is_clipped_to_the_view() {
    assert_eq!(wall_column(3, 900, 2000, (5, 5, 5)), Some(line(3, 0, 899, (5, 5, 5))));
    assert_eq!(wall_column(3, 900, 901, (5, 5, 5)), Some(line(3, 0, 899, (5, 5, 5))));
    assert_eq!(wall_column(3, 900, i32::MAX, (5, 5, 5)), Some(line(3, 0, 899, (5, 5, 5))));
}

#[test]
fn wall_of_no_height_is_one_pixel() {
    assert_eq!(wall_column(3, 900, 0, (5, 5, 5)), Some(line(3, 450, 450, (5, 5, 5))));
}

#[test]
fn empty_view_draws_no_wall() {
    assert_eq!(wall_column(3, 0, 0, (5, 5, 5)), None);
    assert_eq!(wall_column(3, 0, 10, (5, 5, 5)), None);
    assert_eq!(wall_column(3, -10, -5, (5, 5, 5)), None);
}

#[test]
fn background_has_one_line_per_row() {
    let colors = vec![(1u8, 1u8, 1u8), (2, 2, 2), (3, 3, 3)];
    assert_eq!(
        background_rows(640, &colors),
        vec![
            DrawCommand::Line { x0: 0, y0: 0, x1: 639, y1: 0, color: (1, 1, 1) },
            DrawCommand::Line { x0: 0, y0: 1, x1: 639, y1: 1, color: (2, 2, 2) },
            DrawCommand::Line { x0: 0, y0: 2, x1: 639, y1: 2, color: (3, 3, 3) },
        ]
    );
    assert_eq!(background_rows(640, &Vec::new()), Vec::new());
}

#[test]
fn entity_in_front_of_every_wall_is_drawn_in_full() {
    let zbuffer = vec![100u32; 10];
    // Box of size 4 centred on column 5: columns 3..7, rows 8..12 of 20.
    assert_eq!(
        entity_columns(10, 20, 5, 4, 50, &zbuffer),
        vec![stripe(3, 8, 4), stripe(4, 8, 4), stripe(5, 8, 4), stripe(6, 8, 4)]
    );
}

#[test]
fn entity_behind_a_wall_column_is_hidden_there() {
    let mut zbuffer = vec![100u32; 10];
    zbuffer[4] = 50;
    zbuffer[5] = 10;
    assert_eq!(
        entity_columns(10, 20, 5, 4, 50, &zbuffer),
        vec![stripe(3, 8, 4), stripe(6, 8, 4)]
    );
}

#[test]
fn entity_behind_all_walls_draws_nothing() {
    let zbuffer = vec![10u32; 10];
    assert_eq!(entity_columns(10, 20, 5, 4, 50, &zbuffer), Vec::new());
}

#[test]
fn entity_box_is_clipped_to_the_screen() {
    let zbuffer = vec![100u32; 10];
    // Size 40 centred on column 1: columns -19..21 clipped to 0..10,
    // rows -10..30 clipped to 0..20.
    let cmds = entity_columns(10, 20, 1, 40, 50, &zbuffer);
    assert_eq!(cmds.len(), 10);
    assert_eq!(cmds[0], stripe(0, 0, 20));
    assert_eq!(cmds[9], stripe(9, 0, 20));
    // Off the right edge.
    assert_eq!(entity_columns(10, 20, 50, 4, 50, &zbuffer), Vec::new());
    // Off the left edge.
    assert_eq!(entity_columns(10, 20, -50, 4, 50, &zbuffer), Vec::new());
}

#[test]
fn entity_of_no_size_has_no_columns() {
    let zbuffer = vec![100u32; 10];
    assert_eq!(entity_columns(10, 20, 5, 0, 50, &zbuffer), Vec::new());
}

#[test]
fn thin_entity_is_at_least_one_row_high() {
    let zbuffer = vec![100u32; 10];
    assert_eq!(entity_columns(10, 20, 5, 1, 50, &zbuffer), vec![stripe(5, 10, 1)]);
    // A huge box leaves the whole view.
    let cmds = entity_columns(10, 20, 5, i32::MAX, 50, &zbuffer);
    assert_eq!(cmds.len(), 10);
    assert_eq!(cmds[3], stripe(3, 0, 20));
}

#[test]
fn depth_keys_of_non_negative_floats_keep_their_order() {
    // The keys that the program hands over are the bit patterns of
    // non-negative distances.
    let wall = 3.5f32.to_bits();
    let near = 2.25f32.to_bits();
    let far = 7.0f32.to_bits();
    let zbuffer = vec![wall; 4];
    assert_eq!(entity_columns(4, 8, 2, 2, near, &zbuffer).len(), 2);
    assert_eq!(entity_columns(4, 8, 2, 2, far, &zbuffer).len(), 0);
    assert_eq!(entity_columns(4, 8, 2, 2, wall, &zbuffer).len(), 0);
    let open = vec![f32::INFINITY.to_bits(); 4];
    assert_eq!(entity_columns(4, 8, 2, 2, far, &open).len(), 2);
}
