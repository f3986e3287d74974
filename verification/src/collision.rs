//! The grid side of movement: which keys ask for which motion, which solid
//! cells lie around a position, and which axes of a blocked move still apply.

use vstd::prelude::*;
use crate::maze::Pos;

verus! {

/// The movement and rotation keys that are held during one frame.
#[derive(Debug, Clone, Copy, PartialEq, Eq)]
pub struct InputState {
    pub rotate_left: bool,
    pub rotate_right: bool,
    pub forward: bool,
    pub back: bool,
    pub strafe_left: bool,
    pub strafe_right: bool,
}

/// The sign of a motion asked for by two opposite keys.
pub open spec fn balance(plus: bool, minus: bool) -> int {
    (if plus {
        1int
    } else {
        0int
    }) - (if minus {
        1int
    } else {
        0int
    })
}

/// The sign of a motion asked for by two opposite keys: `1`, `-1`, or `0`
/// where both or neither are held.
fn sign_of(plus: bool, minus: bool) -> (sign: i32)
    ensures
        sign == balance(plus, minus),
{
    let up: i32 = if plus {
        1
    } else {
        0
    };
    let down: i32 = if minus {
        1
    } else {
        0
    };
    up - down
}

impl InputState {
    /// The rotation asked for: `1` to the right, `-1` to the left.
    pub fn turn(&self) -> (sign: i32)
        ensures
            sign == balance(self.rotate_right, self.rotate_left),
    {
        sign_of(self.rotate_right, self.rotate_left)
    }

    /// The motion asked for along the viewing direction: `1` forwards, `-1`
    /// backwards.
    pub fn advance(&self) -> (sign: i32)
        ensures
            sign == balance(self.forward, self.back),
    {
        sign_of(self.forward, self.back)
    }

    /// The motion asked for along the right-hand perpendicular of the
    /// viewing direction: `1` to the right, `-1` to the left.
    pub fn strafe(&self) -> (sign: i32)
        ensures
            sign == balance(self.strafe_right, self.strafe_left),
    {
        sign_of(self.strafe_right, self.strafe_left)
    }
}

/// Whether the grid `g` holds a solid cell at column `x` of row `y`.
/// Positions outside the grid are not solid.
pub open spec fn solid_at(g: Seq<Vec<u8>>, x: int, y: int) -> bool {
    0 <= y < g.len() && 0 <= x < g[y]@.len() && g[y]@[x] != 0
}

/// The `k`-th position of the three by three neighbourhood of `(xi, yi)`,
/// read row by row.
pub open spec fn around(xi: int, yi: int, k: int) -> Pos {
    (xi - 1 + k % 3, yi - 1 + k / 3)
}

/// The solid cells among the first `n` positions of the neighbourhood of
/// `(xi, yi)`, in the order in which the neighbourhood is read.
pub open spec fn solid_around(g: Seq<Vec<u8>>, xi: int, yi: int, n: int) -> Seq<Pos>
    decreases n,
{
    if n <= 0 {
        Seq::empty()
    } else {
        let before = solid_around(g, xi, yi, n - 1);
        let at = around(xi, yi, n - 1);
        if solid_at(g, at.0, at.1) {
            before.push(at)
        } else {
            before
        }
    }
}

/// `cells` holds the positions `positions`.
pub open spec fn holds(cells: Seq<(usize, usize)>, positions: Seq<Pos>) -> bool {
    &&& cells.len() == positions.len()
    &&& forall|i: int|
        0 <= i < cells.len() ==> (#[trigger] cells[i].0 as int, cells[i].1 as int) == positions[i]
}

/// Whether the `k`-th position of the neighbourhood of `(xi, yi)` is solid.
pub open spec fn solid_near(g: Seq<Vec<u8>>, xi: int, yi: int, k: int) -> bool {
    solid_at(g, around(xi, yi, k).0, around(xi, yi, k).1)
}

/// A neighbourhood without solid cells yields none, and a solid cell in the
/// middle of the neighbourhood is among those it yields.
proof fn lemma_solid_around(g: Seq<Vec<u8>>, xi: int, yi: int, n: int)
    requires
        0 <= n <= 9,
    ensures
        (forall|k: int| 0 <= k < n ==> !#[trigger] solid_near(g, xi, yi, k)) ==> solid_around(
            g,
            xi,
            yi,
            n,
        ).len() == 0,
        n >= 5 && solid_at(g, xi, yi) ==> solid_around(g, xi, yi, n).contains((xi, yi)),
    decreases n,
{
    if n > 0 {
        lemma_solid_around(g, xi, yi, n - 1);
        let before = solid_around(g, xi, yi, n - 1);
        let all = solid_around(g, xi, yi, n);
        if forall|k: int| 0 <= k < n ==> !#[trigger] solid_near(g, xi, yi, k) {
            assert(!solid_near(g, xi, yi, n - 1));
            assert(all.len() == 0);
        }
        if n >= 5 && solid_at(g, xi, yi) {
            if n == 5 {
                assert(around(xi, yi, 4) == (xi, yi));
                assert(all[all.len() - 1] == (xi, yi));
            } else {
                let i = choose|i: int| 0 <= i < before.len() && before[i] == (xi, yi);
                assert(all[i] == (xi, yi));
            }
        }
    }
}

/// The solid cells of the three by three neighbourhood of the cell
/// `(xi, yi)`, as column and row, read row by row; positions outside the
/// grid are passed over. A neighbourhood without solid cells yields nothing,
/// and a solid cell at `(xi, yi)` itself is always among the result.
pub fn solid_cells_around(grid: &Vec<Vec<u8>>, xi: i32, yi: i32) -> (cells: Vec<(usize, usize)>)
    ensures
        holds(cells@, solid_around(grid@, xi as int, yi as int, 9)),
        (forall|k: int| 0 <= k < 9 ==> !#[trigger] solid_near(grid@, xi as int, yi as int, k))
            ==> cells@.len() == 0,
        solid_at(grid@, xi as int, yi as int) ==> cells@.contains((xi as usize, yi as usize)),
{
    let mut cells: Vec<(usize, usize)> = Vec::new();
    let mut k: i64 = 0;
    while k < 9
        invariant
            0 <= k <= 9,
            holds(cells@, solid_around(grid@, xi as int, yi as int, k as int)),
        decreases 9 - k,
    {
        let gx: i64 = xi as i64 - 1 + k % 3;
        let gy: i64 = yi as i64 - 1 + k / 3;
        assert(around(xi as int, yi as int, k as int) == (gx as int, gy as int));
        if gy >= 0 && gx >= 0 {
            let row = gy as usize;
            let column = gx as usize;
            if row < grid.len() && column < grid[row].len() && grid[row][column] != 0 {
                cells.push((column, row));
            }
        }
        k += 1;
    }
    proof {
        lemma_solid_around(grid@, xi as int, yi as int, 9);
        if solid_at(grid@, xi as int, yi as int) {
            let found = solid_around(grid@, xi as int, yi as int, 9);
            let i = choose|i: int| 0 <= i < found.len() && found[i] == (xi as int, yi as int);
            assert((cells@[i].0 as int, cells@[i].1 as int) == found[i]);
            assert(cells@[i] == (xi as usize, yi as usize));
        }
    }
    cells
}

/// Which axes of a wanted move apply.
#[derive(Debug, Clone, Copy, PartialEq, Eq)]
pub struct Slide {
    pub move_x: bool,
    pub move_y: bool,
}

/// Axis-separated sliding. `full` says whether the observer can stand where
/// the whole move leads, `x_only` and `y_only` whether it can stand where the
/// move along one axis alone leads, each from where it stands now. The whole
/// move applies if it can; otherwise each axis applies on its own test, so
/// that a move that is blocked on one axis slides along the other.
pub fn slide(full: bool, x_only: bool, y_only: bool) -> (applied: Slide)
    ensures
        full ==> applied.move_x && applied.move_y,
        !full ==> applied.move_x == x_only && applied.move_y == y_only,
{
    if full {
        Slide { move_x: true, move_y: true }
    } else {
        Slide { move_x: x_only, move_y: y_only }
    }
}

} // verus!
