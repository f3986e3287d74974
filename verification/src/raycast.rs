//! The grid side of ray casting: what a ray finds in the cell it enters, and
//! the walk of a ray from cell to cell.

use vstd::prelude::*;

verus! {

/// What a ray finds at a grid position.
#[derive(Debug, Clone, Copy, PartialEq, Eq)]
pub enum Probe {
    /// A traversable cell: the ray goes on.
    Open,
    /// A solid cell: the ray ends on its face.
    Wall,
    /// No cell of the grid: the ray has left it and hits nothing.
    Outside,
}

/// What the grid `g` holds at column `x` of row `y`.
pub open spec fn probe_of(g: Seq<Vec<u8>>, x: int, y: int) -> Probe {
    if y < 0 || y >= g.len() || x < 0 || x >= g[y]@.len() {
        Probe::Outside
    } else if g[y]@[x] != 0 {
        Probe::Wall
    } else {
        Probe::Open
    }
}

/// Looks up a position that may lie outside the grid. Indices are tested,
/// never clamped.
pub fn probe(grid: &Vec<Vec<u8>>, x: i32, y: i32) -> (found: Probe)
    ensures
        found == probe_of(grid@, x as int, y as int),
{
    if y < 0 || x < 0 {
        return Probe::Outside;
    }
    let row = y as usize;
    let column = x as usize;
    if row >= grid.len() {
        return Probe::Outside;
    }
    if column >= grid[row].len() {
        return Probe::Outside;
    }
    if grid[row][column] != 0 {
        Probe::Wall
    } else {
        Probe::Open
    }
}

/// The walk of one ray through the grid: the cell it is in, the direction in
/// which it crosses grid lines on each axis, and the axis of the line it
/// crossed last (`0` for a line between columns, `1` for one between rows).
#[derive(Debug, Clone, Copy, PartialEq, Eq)]
pub struct RayWalk {
    pub map_x: i32,
    pub map_y: i32,
    pub step_x: i32,
    pub step_y: i32,
    pub side: u8,
}

impl RayWalk {
    /// Each step is one cell forwards or backwards, and `side` names an axis.
    pub open spec fn wf(&self) -> bool {
        &&& (self.step_x == 1 || self.step_x == -1)
        &&& (self.step_y == 1 || self.step_y == -1)
        &&& self.side <= 1
    }

    /// A walk that starts in the cell `(map_x, map_y)` and steps towards
    /// smaller columns if `leftwards`, towards smaller rows if `upwards`.
    pub fn new(map_x: i32, map_y: i32, leftwards: bool, upwards: bool) -> (walk: RayWalk)
        ensures
            walk.wf(),
            walk.map_x == map_x,
            walk.map_y == map_y,
            walk.step_x == (if leftwards {
                -1i32
            } else {
                1i32
            }),
            walk.step_y == (if upwards {
                -1i32
            } else {
                1i32
            }),
            walk.side == 0,
    {
        RayWalk {
            map_x,
            map_y,
            step_x: if leftwards {
                -1
            } else {
                1
            },
            step_y: if upwards {
                -1
            } else {
                1
            },
            side: 0,
        }
    }

    /// The walk after one more step, across a line between columns if
    /// `along_x` and between rows otherwise.
    pub open spec fn stepped(self, along_x: bool) -> RayWalk {
        if along_x {
            RayWalk { map_x: (self.map_x + self.step_x) as i32, side: 0, ..self }
        } else {
            RayWalk { map_y: (self.map_y + self.step_y) as i32, side: 1, ..self }
        }
    }

    /// Moves the ray into the next cell and says what it finds there.
    pub fn advance(&mut self, grid: &Vec<Vec<u8>>, along_x: bool) -> (found: Probe)
        requires
            old(self).wf(),
            i32::MIN < old(self).map_x < i32::MAX,
            i32::MIN < old(self).map_y < i32::MAX,
        ensures
            *final(self) == old(self).stepped(along_x),
            final(self).wf(),
            found == probe_of(grid@, final(self).map_x as int, final(self).map_y as int),
    {
        if along_x {
            self.map_x = self.map_x + self.step_x;
            self.side = 0;
        } else {
            self.map_y = self.map_y + self.step_y;
            self.side = 1;
        }
        probe(grid, self.map_x, self.map_y)
    }

    /// The grid line that the ray crossed last, as a coordinate on the axis
    /// `side`: the near face of the cell it is in.
    pub fn face(&self) -> (line: i64)
        requires
            self.wf(),
        ensures
            line == (if self.side == 0 {
                self.map_x + (1 - self.step_x) / 2
            } else {
                self.map_y + (1 - self.step_y) / 2
            }),
    {
        if self.side == 0 {
            self.map_x as i64 + ((1 - self.step_x) / 2) as i64
        } else {
            self.map_y as i64 + ((1 - self.step_y) / 2) as i64
        }
    }
}

/// The walk after `n` steps across lines between columns.
pub open spec fn run_along_x(walk: RayWalk, n: nat) -> RayWalk
    decreases n,
{
    if n == 0 {
        walk
    } else {
        run_along_x(walk, (n - 1) as nat).stepped(true)
    }
}

/// A ray straight down a corridor ends on the wall at its end: if the `d - 1`
/// cells after the ray's cell are traversable and the one after them is
/// solid, the ray finds traversable cells on its first `d - 1` steps and the
/// wall on step `d`, and the face it ends on lies `d` columns after the
/// ray's first cell.
pub proof fn lemma_straight_ray(g: Seq<Vec<u8>>, walk: RayWalk, d: nat)
    requires
        walk.wf(),
        walk.step_x == 1,
        d >= 1,
        walk.map_x + d <= i32::MAX,
        forall|x: int|
            walk.map_x < x < walk.map_x + d ==> #[trigger] probe_of(g, x, walk.map_y as int)
                == Probe::Open,
        probe_of(g, walk.map_x + d, walk.map_y as int) == Probe::Wall,
    ensures
        forall|n: nat|
            1 <= n < d ==> probe_of(
                g,
                (#[trigger] run_along_x(walk, n)).map_x as int,
                run_along_x(walk, n).map_y as int,
            ) == Probe::Open,
        probe_of(g, run_along_x(walk, d).map_x as int, run_along_x(walk, d).map_y as int)
            == Probe::Wall,
        run_along_x(walk, d).side == 0,
        run_along_x(walk, d).map_x + (1 - run_along_x(walk, d).step_x) / 2 == walk.map_x + d,
{
    assert forall|n: nat| n <= d implies (#[trigger] run_along_x(walk, n)).map_x == walk.map_x + n
        && run_along_x(walk, n).map_y == walk.map_y && run_along_x(walk, n).step_x == 1 && (n >= 1
        ==> run_along_x(walk, n).side == 0) by {
        lemma_run_along_x(walk, n);
    }
}

/// Where a ray that steps towards greater columns is after `n` steps.
proof fn lemma_run_along_x(walk: RayWalk, n: nat)
    requires
        walk.step_x == 1,
        walk.map_x + n <= i32::MAX,
    ensures
        run_along_x(walk, n).map_x == walk.map_x + n,
        run_along_x(walk, n).map_y == walk.map_y,
        run_along_x(walk, n).step_x == 1,
        n >= 1 ==> run_along_x(walk, n).side == 0,
    decreases n,
{
    if n > 0 {
        lemma_run_along_x(walk, (n - 1) as nat);
    }
}

/// The colour of a wall before shading: one tone for faces between columns,
/// a lighter one for faces between rows.
pub fn base_tone(side: u8) -> (tone: (u8, u8, u8))
    ensures
        tone == (if side == 1 {
            (68u8, 68u8, 68u8)
        } else {
            (43u8, 43u8, 43u8)
        }),
{
    if side == 1 {
        (68, 68, 68)
    } else {
        (43, 43, 43)
    }
}

} // verus!
