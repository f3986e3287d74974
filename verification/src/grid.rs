//! The occupancy grid: one byte per position, zero where an observer can
//! stand. Expanding a cell graph gives every cell a position of its own and
//! every wall a position between two cells.

use vstd::prelude::*;
use crate::maze::{inside, is_cell_graph, wall, Cell, Pos};

verus! {

/// `g` has `gh` rows of `gw` bytes each.
pub open spec fn is_grid(g: Seq<Vec<u8>>, gw: int, gh: int) -> bool {
    &&& g.len() == gh
    &&& forall|y: int| 0 <= y < gh ==> (#[trigger] g[y])@.len() == gw
}

/// The byte of `g` at the position `s`.
pub open spec fn tile(g: Seq<Vec<u8>>, s: Pos) -> u8 {
    g[s.1]@[s.0]
}

/// The grid position that stands for the cell `c`.
pub open spec fn center(c: Pos) -> Pos {
    (2 * c.0 + 1, 2 * c.1 + 1)
}

/// The grid position between the positions of the adjacent cells `a` and `b`.
pub open spec fn between(a: Pos, b: Pos) -> Pos {
    (a.0 + b.0 + 1, a.1 + b.1 + 1)
}

/// The cell `c` makes the grid position `s` traversable: `s` stands for `c`
/// itself, or it lies next to it across a wall that `c` records as removed.
pub open spec fn opened_by(m: Seq<Vec<Cell>>, s: Pos, c: Pos) -> bool {
    ||| s == center(c)
    ||| (s == (2 * c.0 + 1, 2 * c.1) && !wall(m, c, 0))
    ||| (s == (2 * c.0 + 2, 2 * c.1 + 1) && !wall(m, c, 1))
    ||| (s == (2 * c.0 + 1, 2 * c.1 + 2) && !wall(m, c, 2))
    ||| (s == (2 * c.0, 2 * c.1 + 1) && !wall(m, c, 3))
}

/// Some cell of the graph makes the grid position `s` traversable.
pub open spec fn opened(m: Seq<Vec<Cell>>, w: int, h: int, s: Pos) -> bool {
    exists|c: Pos| inside(w, h, c) && #[trigger] opened_by(m, s, c)
}

/// `g` is the expansion of the cell graph `m`: it has `2h+1` rows of `2w+1`
/// bytes, zero at the positions that some cell makes traversable and one
/// everywhere else.
pub open spec fn is_expansion(g: Seq<Vec<u8>>, m: Seq<Vec<Cell>>, w: int, h: int) -> bool {
    &&& is_grid(g, 2 * w + 1, 2 * h + 1)
    &&& forall|s: Pos|
        inside(2 * w + 1, 2 * h + 1, s) ==> #[trigger] tile(g, s) == (if opened(m, w, h, s) {
            0u8
        } else {
            1u8
        })
}

/// Whether the cell `c` comes before the cell `(px, py)` when rows are read
/// one after the other.
spec fn before(c: Pos, px: int, py: int) -> bool {
    c.1 < py || (c.1 == py && c.0 < px)
}

/// Some cell before `(px, py)` makes `s` traversable.
spec fn opened_before(m: Seq<Vec<Cell>>, w: int, h: int, s: Pos, px: int, py: int) -> bool {
    exists|c: Pos| inside(w, h, c) && before(c, px, py) && #[trigger] opened_by(m, s, c)
}

/// `g` is what the expansion has written once the cells before `(px, py)`
/// are done.
spec fn expanded_before(
    g: Seq<Vec<u8>>,
    m: Seq<Vec<Cell>>,
    w: int,
    h: int,
    px: int,
    py: int,
) -> bool {
    &&& is_grid(g, 2 * w + 1, 2 * h + 1)
    &&& forall|s: Pos|
        inside(2 * w + 1, 2 * h + 1, s) ==> #[trigger] tile(g, s) == (if opened_before(
            m,
            w,
            h,
            s,
            px,
            py,
        ) {
            0u8
        } else {
            1u8
        })
}

/// Writing the positions that the cell `(px, py)` opens advances the
/// expansion by one cell.
proof fn lemma_expand_cell(
    g: Seq<Vec<u8>>,
    g2: Seq<Vec<u8>>,
    m: Seq<Vec<Cell>>,
    w: int,
    h: int,
    px: int,
    py: int,
)
    requires
        expanded_before(g, m, w, h, px, py),
        inside(w, h, (px, py)),
        is_grid(g2, 2 * w + 1, 2 * h + 1),
        forall|s: Pos|
            inside(2 * w + 1, 2 * h + 1, s) ==> #[trigger] tile(g2, s) == (if opened_by(
                m,
                s,
                (px, py),
            ) {
                0u8
            } else {
                tile(g, s)
            }),
    ensures
        expanded_before(g2, m, w, h, px + 1, py),
{
    let here = (px, py);
    assert forall|s: Pos| inside(2 * w + 1, 2 * h + 1, s) implies #[trigger] tile(g2, s) == (
    if opened_before(m, w, h, s, px + 1, py) {
        0u8
    } else {
        1u8
    }) by {
        if opened_before(m, w, h, s, px + 1, py) {
            let c = choose|c: Pos|
                inside(w, h, c) && before(c, px + 1, py) && #[trigger] opened_by(m, s, c);
            if c != here {
                assert(before(c, px, py));
                assert(opened_before(m, w, h, s, px, py));
                assert(tile(g, s) == 0);
            }
        } else {
            assert(!opened_by(m, s, here));
            if opened_before(m, w, h, s, px, py) {
                let c = choose|c: Pos|
                    inside(w, h, c) && before(c, px, py) && #[trigger] opened_by(m, s, c);
                assert(before(c, px + 1, py));
            }
            assert(tile(g, s) == 1);
        }
    }
}

/// A grid of `gh` rows of `gw` bytes, all of them solid.
fn solid_grid(gw: usize, gh: usize) -> (grid: Vec<Vec<u8>>)
    ensures
        is_grid(grid@, gw as int, gh as int),
        forall|s: Pos| inside(gw as int, gh as int, s) ==> #[trigger] tile(grid@, s) == 1,
{
    let mut grid: Vec<Vec<u8>> = Vec::new();
    let mut y: usize = 0;
    while y < gh
        invariant
            y <= gh,
            grid@.len() == y,
            forall|k: int| 0 <= k < y ==> (#[trigger] grid@[k])@.len() == gw,
            forall|k: int, j: int| 0 <= k < y && 0 <= j < gw ==> (#[trigger] grid@[k]@[j]) == 1,
        decreases gh - y,
    {
        let mut row: Vec<u8> = Vec::new();
        let mut x: usize = 0;
        while x < gw
            invariant
                x <= gw,
                row@.len() == x,
                forall|j: int| 0 <= j < x ==> #[trigger] row@[j] == 1,
            decreases gw - x,
        {
            row.push(1u8);
            x += 1;
        }
        grid.push(row);
        y += 1;
    }
    proof {
        assert forall|s: Pos| inside(gw as int, gh as int, s) implies #[trigger] tile(grid@, s)
            == 1 by {
            assert(grid@[s.1]@[s.0] == 1);
        }
    }
    grid
}

/// Expands a cell graph into its occupancy grid: every cell becomes a
/// traversable position at odd coordinates, and the position between a cell
/// and each of its four sides is traversable exactly if the cell records that
/// wall as removed. All other positions are solid.
pub fn maze_to_grid(maze: &Vec<Vec<Cell>>) -> (grid: Vec<Vec<u8>>)
    requires
        maze@.len() >= 1,
        is_cell_graph(maze@, maze@[0]@.len() as int, maze@.len() as int),
        2 * maze@.len() + 1 <= usize::MAX,
        2 * maze@[0]@.len() + 1 <= usize::MAX,
    ensures
        is_expansion(grid@, maze@, maze@[0]@.len() as int, maze@.len() as int),
{
    let h = maze.len();
    let w = maze[0].len();
    let gh = h * 2 + 1;
    let gw = w * 2 + 1;
    let mut grid = solid_grid(gw, gh);
    proof {
        assert forall|s: Pos| !opened_before(maze@, w as int, h as int, s, 0, 0) by {
            assert forall|c: Pos| inside(w as int, h as int, c) implies !before(c, 0, 0) by {}
        }
    }
    let mut cy: usize = 0;
    while cy < h
        invariant
            cy <= h,
            h == maze@.len(),
            is_cell_graph(maze@, w as int, h as int),
            gh == 2 * h + 1,
            gw == 2 * w + 1,
            expanded_before(grid@, maze@, w as int, h as int, 0, cy as int),
        decreases h - cy,
    {
        let mut cx: usize = 0;
        while cx < w
            invariant
                cx <= w,
                cy < h,
                h == maze@.len(),
                is_cell_graph(maze@, w as int, h as int),
                gh == 2 * h + 1,
                gw == 2 * w + 1,
                expanded_before(grid@, maze@, w as int, h as int, cx as int, cy as int),
            decreases w - cx,
        {
            let gx = 2 * cx + 1;
            let gy = 2 * cy + 1;
            let ghost g0 = grid@;
            let cell = maze[cy][cx];
            grid[gy][gx] = 0;
            if !cell.walls[0] {
                grid[gy - 1][gx] = 0;
            }
            if !cell.walls[1] {
                grid[gy][gx + 1] = 0;
            }
            if !cell.walls[2] {
                grid[gy + 1][gx] = 0;
            }
            if !cell.walls[3] {
                grid[gy][gx - 1] = 0;
            }
            proof {
                let here = (cx as int, cy as int);
                assert(cell == maze@[cy as int]@[cx as int]);
                assert forall|s: Pos|
                    inside(2 * w + 1, 2 * h + 1, s) implies #[trigger] tile(grid@, s) == (
                if opened_by(maze@, s, here) {
                    0u8
                } else {
                    tile(g0, s)
                }) by {}
                lemma_expand_cell(g0, grid@, maze@, w as int, h as int, cx as int, cy as int);
            }
            cx += 1;
        }
        proof {
            assert forall|s: Pos|
                opened_before(maze@, w as int, h as int, s, 0, cy + 1) == opened_before(
                    maze@,
                    w as int,
                    h as int,
                    s,
                    w as int,
                    cy as int,
                ) by {
                if opened_before(maze@, w as int, h as int, s, 0, cy + 1) {
                    let c = choose|c: Pos|
                        inside(w as int, h as int, c) && before(c, 0, cy + 1)
                            && #[trigger] opened_by(maze@, s, c);
                    assert(before(c, w as int, cy as int));
                }
                if opened_before(maze@, w as int, h as int, s, w as int, cy as int) {
                    let c = choose|c: Pos|
                        inside(w as int, h as int, c) && before(c, w as int, cy as int)
                            && #[trigger] opened_by(maze@, s, c);
                    assert(before(c, 0, cy + 1));
                }
            }
        }
        cy += 1;
    }
    proof {
        assert forall|s: Pos|
            opened_before(maze@, w as int, h as int, s, 0, h as int) == opened(
                maze@,
                w as int,
                h as int,
                s,
            ) by {
            if opened_before(maze@, w as int, h as int, s, 0, h as int) {
                let c = choose|c: Pos|
                    inside(w as int, h as int, c) && before(c, 0, h as int)
                        && #[trigger] opened_by(maze@, s, c);
                assert(inside(w as int, h as int, c) && opened_by(maze@, s, c));
            }
            if opened(maze@, w as int, h as int, s) {
                let c = choose|c: Pos| inside(w as int, h as int, c) && #[trigger] opened_by(
                    maze@,
                    s,
                    c,
                );
                assert(before(c, 0, h as int));
            }
        }
    }
    grid
}

} // verus!
