//! Draw commands and the integer geometry of the projection: which pixels of
//! a screen column a wall covers, and which columns of an entity's box are
//! in front of the walls.

use vstd::prelude::*;

verus! {

/// A colour as red, green and blue.
pub type Rgb = (u8, u8, u8);

/// The colour in which entities are drawn.
pub const ENTITY_COLOR: Rgb = (0, 200, 0);

/// One drawing primitive. Commands are meant to be honoured in the order in
/// which they were emitted: later ones may draw over earlier ones.
#[derive(Debug, Clone, Copy, PartialEq, Eq)]
pub enum DrawCommand {
    /// A horizontal or vertical line from `(x0, y0)` to `(x1, y1)`, both ends
    /// included.
    Line { x0: i32, y0: i32, x1: i32, y1: i32, color: Rgb },
    /// A filled rectangle with its top left corner at `(x, y)`.
    FillRect { x: i32, y: i32, w: u32, h: u32, color: Rgb },
}

/// Half of `v`, rounded towards zero.
pub open spec fn half(v: int) -> int {
    if v >= 0 {
        v / 2
    } else {
        -((-v) / 2)
    }
}

/// The rows that a wall of projected height `line_h` covers in a view of
/// `view_h` rows: the wall is centred on the middle of the view and clipped
/// to it. `None` where nothing of it is left.
pub open spec fn wall_span(view_h: int, line_h: int) -> Option<(int, int)> {
    let start = half(view_h - line_h);
    let end = half(view_h + line_h);
    let first = if start < 0 {
        0
    } else {
        start
    };
    let last = if end > view_h - 1 {
        view_h - 1
    } else {
        end
    };
    if first <= last {
        Some((first, last))
    } else {
        None
    }
}

/// The command that draws the wall of the screen column `x`: a vertical line
/// over the rows of `wall_span`, or nothing where that span is empty.
pub fn wall_column(x: i32, view_h: i32, line_h: i32, color: Rgb) -> (cmd: Option<DrawCommand>)
    ensures
        match wall_span(view_h as int, line_h as int) {
            Some(rows) => cmd == Some(
                DrawCommand::Line { x0: x, y0: rows.0 as i32, x1: x, y1: rows.1 as i32, color },
            ) && 0 <= rows.0 <= rows.1 < view_h,
            None => cmd is None,
        },
{
    let start: i64 = (view_h as i64 - line_h as i64) / 2;
    let end: i64 = (view_h as i64 + line_h as i64) / 2;
    let first: i64 = if start < 0 {
        0
    } else {
        start
    };
    let last: i64 = if end > view_h as i64 - 1 {
        view_h as i64 - 1
    } else {
        end
    };
    if first <= last {
        Some(DrawCommand::Line { x0: x, y0: first as i32, x1: x, y1: last as i32, color })
    } else {
        None
    }
}

/// One full-width line per row of the background, row `y` in the colour
/// `colors[y]`.
pub fn background_rows(screen_w: i32, colors: &Vec<Rgb>) -> (cmds: Vec<DrawCommand>)
    requires
        screen_w > i32::MIN,
        colors@.len() <= i32::MAX,
    ensures
        cmds@.len() == colors@.len(),
        forall|y: int|
            0 <= y < colors@.len() ==> #[trigger] cmds@[y] == (DrawCommand::Line {
                x0: 0,
                y0: y as i32,
                x1: (screen_w - 1) as i32,
                y1: y as i32,
                color: colors@[y],
            }),
{
    let mut cmds: Vec<DrawCommand> = Vec::new();
    let mut y: usize = 0;
    while y < colors.len()
        invariant
            screen_w > i32::MIN,
            colors@.len() <= i32::MAX,
            y <= colors@.len(),
            cmds@.len() == y,
            forall|k: int|
                0 <= k < y ==> #[trigger] cmds@[k] == (DrawCommand::Line {
                    x0: 0,
                    y0: k as i32,
                    x1: (screen_w - 1) as i32,
                    y1: k as i32,
                    color: colors@[k],
                }),
        decreases colors@.len() - y,
    {
        let row: i32 = y as i32;
        cmds.push(DrawCommand::Line { x0: 0, y0: row, x1: screen_w - 1, y1: row, color: colors[y] });
        y += 1;
    }
    cmds
}

/// The top row of the box of an entity of apparent size `size`: the box is
/// centred on the middle of the view and clipped to it.
pub open spec fn entity_top(view_h: int, size: int) -> int {
    let top = half(view_h) - half(size);
    if top < 0 {
        0
    } else {
        top
    }
}

/// The height of the rectangles that draw an entity: what the view leaves of
/// its box, and never less than one row.
pub open spec fn entity_height(view_h: int, size: int) -> int {
    let top = half(view_h) - half(size);
    let bottom = top + size;
    let end = if bottom > view_h {
        view_h
    } else {
        bottom
    };
    if end - entity_top(view_h, size) < 1 {
        1
    } else {
        end - entity_top(view_h, size)
    }
}

/// The first screen column of the box of an entity centred on column
/// `center_x`.
pub open spec fn entity_left(center_x: int, size: int) -> int {
    let left = center_x - half(size);
    if left < 0 {
        0
    } else {
        left
    }
}

/// The screen column after the last one of the box of an entity.
pub open spec fn entity_right(screen_w: int, center_x: int, size: int) -> int {
    let right = center_x - half(size) + size;
    if right > screen_w {
        screen_w
    } else {
        right
    }
}

/// The rectangle that draws one column of an entity.
pub open spec fn entity_stripe(column: int, view_h: int, size: int) -> DrawCommand {
    DrawCommand::FillRect {
        x: column as i32,
        y: entity_top(view_h, size) as i32,
        w: 1,
        h: entity_height(view_h, size) as u32,
        color: ENTITY_COLOR,
    }
}

/// The rectangles for the columns from `from` up to, not including, `to`:
/// one for each column at which the entity's depth is strictly less than the
/// depth recorded for the wall, in rising order of columns.
pub open spec fn stripes(
    from: int,
    to: int,
    view_h: int,
    size: int,
    depth: u32,
    zbuffer: Seq<u32>,
) -> Seq<DrawCommand>
    decreases to - from,
{
    if to <= from {
        Seq::empty()
    } else {
        let before = stripes(from, to - 1, view_h, size, depth, zbuffer);
        if depth < zbuffer[to - 1] {
            before.push(entity_stripe(to - 1, view_h, size))
        } else {
            before
        }
    }
}

/// The commands that draw an entity.
pub open spec fn entity_commands(
    screen_w: int,
    view_h: int,
    center_x: int,
    size: int,
    depth: u32,
    zbuffer: Seq<u32>,
) -> Seq<DrawCommand> {
    stripes(
        entity_left(center_x, size),
        entity_right(screen_w, center_x, size),
        view_h,
        size,
        depth,
        zbuffer,
    )
}

/// Whether `cmd` is a rectangle of at least one row that starts in the
/// screen column `column`.
pub open spec fn fills_column(cmd: DrawCommand, column: int) -> bool {
    match cmd {
        DrawCommand::FillRect { x, h, .. } => x == column && h >= 1,
        DrawCommand::Line { .. } => false,
    }
}

/// The commands that draw an entity whose box is centred on the screen
/// column `center_x` and is `size` pixels wide and high. Depths are compared
/// as unsigned keys: a smaller key is nearer. A column of the box is drawn,
/// as one rectangle one pixel wide, exactly if the entity's key is strictly
/// less than the key that the depth buffer holds for that column.
pub fn entity_columns(
    screen_w: i32,
    view_h: i32,
    center_x: i32,
    size: i32,
    depth: u32,
    zbuffer: &Vec<u32>,
) -> (cmds: Vec<DrawCommand>)
    requires
        0 <= screen_w,
        zbuffer@.len() == screen_w,
    ensures
        cmds@ == entity_commands(
            screen_w as int,
            view_h as int,
            center_x as int,
            size as int,
            depth,
            zbuffer@,
        ),
{
    let half_size: i64 = (size / 2) as i64;
    let top: i64 = (view_h / 2) as i64 - half_size;
    let bottom: i64 = top + size as i64;
    let y0: i64 = if top < 0 {
        0
    } else {
        top
    };
    let y1: i64 = if bottom > view_h as i64 {
        view_h as i64
    } else {
        bottom
    };
    let h: u32 = if y1 - y0 < 1 {
        1
    } else {
        (y1 - y0) as u32
    };
    let left: i64 = center_x as i64 - half_size;
    let right: i64 = left + size as i64;
    let x0: i64 = if left < 0 {
        0
    } else {
        left
    };
    let x1: i64 = if right > screen_w as i64 {
        screen_w as i64
    } else {
        right
    };
    let mut cmds: Vec<DrawCommand> = Vec::new();
    let mut column: i64 = x0;
    while column < x1
        invariant
            0 <= x0 <= column,
            column <= x1 || column == x0,
            x1 <= screen_w,
            zbuffer@.len() == screen_w,
            0 <= y0 <= i32::MAX,
            y0 == entity_top(view_h as int, size as int),
            h == entity_height(view_h as int, size as int),
            cmds@ == stripes(x0 as int, column as int, view_h as int, size as int, depth, zbuffer@),
        decreases x1 - column,
    {
        if depth < zbuffer[column as usize] {
            cmds.push(
                DrawCommand::FillRect {
                    x: column as i32,
                    y: y0 as i32,
                    w: 1,
                    h,
                    color: ENTITY_COLOR,
                },
            );
        }
        column += 1;
    }
    cmds
}

/// Where the commands for the columns `from..to` lie: each is the stripe of
/// a column of that range at which the entity is nearer than the wall, and
/// every such column has its stripe.
proof fn lemma_stripes(from: int, to: int, view_h: int, size: int, depth: u32, zbuffer: Seq<u32>)
    requires
        0 <= from,
        to <= zbuffer.len(),
        to <= i32::MAX,
    ensures
        forall|i: int|
            0 <= i < stripes(from, to, view_h, size, depth, zbuffer).len() ==> exists|c: int|
                from <= c < to && depth < zbuffer[c] && #[trigger] stripes(
                    from,
                    to,
                    view_h,
                    size,
                    depth,
                    zbuffer,
                )[i] == entity_stripe(c, view_h, size),
        forall|c: int|
            from <= c < to && depth < zbuffer[c] ==> stripes(
                from,
                to,
                view_h,
                size,
                depth,
                zbuffer,
            ).contains(#[trigger] entity_stripe(c, view_h, size)),
    decreases to - from,
{
    if to > from {
        lemma_stripes(from, to - 1, view_h, size, depth, zbuffer);
        let before = stripes(from, to - 1, view_h, size, depth, zbuffer);
        let all = stripes(from, to, view_h, size, depth, zbuffer);
        assert forall|i: int| 0 <= i < all.len() implies exists|c: int|
            from <= c < to && depth < zbuffer[c] && #[trigger] all[i] == entity_stripe(
                c,
                view_h,
                size,
            ) by {
            if i < before.len() {
                let c = choose|c: int|
                    from <= c < to - 1 && depth < zbuffer[c] && before[i] == entity_stripe(
                        c,
                        view_h,
                        size,
                    );
                assert(all[i] == entity_stripe(c, view_h, size));
            } else {
                assert(all[i] == entity_stripe(to - 1, view_h, size));
            }
        }
        assert forall|c: int| from <= c < to && depth < zbuffer[c] implies all.contains(
            #[trigger] entity_stripe(c, view_h, size),
        ) by {
            if c < to - 1 {
                assert(before.contains(entity_stripe(c, view_h, size)));
                let i = choose|i: int|
                    0 <= i < before.len() && before[i] == entity_stripe(c, view_h, size);
                assert(all[i] == entity_stripe(c, view_h, size));
            } else {
                assert(all[all.len() - 1] == entity_stripe(c, view_h, size));
            }
        }
    }
}

/// Occlusion by column: where the depth recorded for the wall of a column is
/// not greater than the entity's, no command of the entity lies in that
/// column; where the entity is strictly nearer and the column belongs to its
/// box, one of its commands is a rectangle of at least one row in that
/// column.
pub proof fn lemma_occlusion(
    screen_w: i32,
    view_h: i32,
    center_x: i32,
    size: i32,
    depth: u32,
    zbuffer: Seq<u32>,
    column: int,
)
    requires
        zbuffer.len() == screen_w,
        0 <= column < screen_w,
    ensures
        zbuffer[column] <= depth ==> forall|i: int|
            0 <= i < entity_commands(
                screen_w as int,
                view_h as int,
                center_x as int,
                size as int,
                depth,
                zbuffer,
            ).len() ==> !fills_column(
                #[trigger] entity_commands(
                    screen_w as int,
                    view_h as int,
                    center_x as int,
                    size as int,
                    depth,
                    zbuffer,
                )[i],
                column,
            ),
        depth < zbuffer[column] && entity_left(center_x as int, size as int) <= column
            < entity_right(screen_w as int, center_x as int, size as int) ==> exists|i: int|
            0 <= i < entity_commands(
                screen_w as int,
                view_h as int,
                center_x as int,
                size as int,
                depth,
                zbuffer,
            ).len() && fills_column(
                #[trigger] entity_commands(
                    screen_w as int,
                    view_h as int,
                    center_x as int,
                    size as int,
                    depth,
                    zbuffer,
                )[i],
                column,
            ),
{
    let from = entity_left(center_x as int, size as int);
    let to = entity_right(screen_w as int, center_x as int, size as int);
    let cmds = entity_commands(
        screen_w as int,
        view_h as int,
        center_x as int,
        size as int,
        depth,
        zbuffer,
    );
    lemma_stripes(from, to, view_h as int, size as int, depth, zbuffer);
    if zbuffer[column] <= depth {
        assert forall|i: int| 0 <= i < cmds.len() implies !fills_column(
            #[trigger] cmds[i],
            column,
        ) by {
            let c = choose|c: int|
                from <= c < to && depth < zbuffer[c] && cmds[i] == entity_stripe(
                    c,
                    view_h as int,
                    size as int,
                );
            assert(c != column);
        }
    }
    if depth < zbuffer[column] && from <= column < to {
        let stripe = entity_stripe(column, view_h as int, size as int);
        assert(cmds.contains(stripe));
        let i = choose|i: int| 0 <= i < cmds.len() && cmds[i] == stripe;
        assert(1 <= entity_height(view_h as int, size as int) <= i32::MAX);
        assert(fills_column(cmds[i], column));
    }
}

} // verus!
