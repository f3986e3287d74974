//! The cell graph of a maze and the vocabulary used to speak about it:
//! positions, sides, walls, passages, paths and cycles.

use vstd::prelude::*;

verus! {

/// One maze unit while the maze is carved.
#[derive(Debug, Clone, Copy)]
pub struct Cell {
    /// Whether the carving walk has reached this cell.
    pub visited: bool,
    /// Walls in the order top, right, bottom, left; `true` means the wall stands.
    pub walls: [bool; 4],
}

impl Cell {
    /// A cell that the walk has not reached and whose four walls stand.
    pub fn new() -> (cell: Cell)
        ensures
            !cell.visited,
            forall|side: int| 0 <= side < 4 ==> cell.walls@[side],
    {
        Cell { visited: false, walls: [true; 4] }
    }
}

/// A cell position: column first, row second. Rows grow downwards.
pub type Pos = (int, int);

/// `m` has `h` rows of `w` cells each.
pub open spec fn is_cell_graph(m: Seq<Vec<Cell>>, w: int, h: int) -> bool {
    &&& m.len() == h
    &&& forall|y: int| 0 <= y < h ==> (#[trigger] m[y])@.len() == w
}

/// `p` lies in a graph of `w` columns and `h` rows.
pub open spec fn inside(w: int, h: int, p: Pos) -> bool {
    0 <= p.0 < w && 0 <= p.1 < h
}

/// The position next to `p` across its wall `side`.
pub open spec fn step(p: Pos, side: int) -> Pos {
    if side == 0 {
        (p.0, p.1 - 1)
    } else if side == 1 {
        (p.0 + 1, p.1)
    } else if side == 2 {
        (p.0, p.1 + 1)
    } else {
        (p.0 - 1, p.1)
    }
}

/// The side that faces `side` from the neighbouring cell.
pub open spec fn opposite(side: int) -> int {
    if side < 2 {
        side + 2
    } else {
        side - 2
    }
}

/// Whether the wall `side` of the cell at `p` stands.
pub open spec fn wall(m: Seq<Vec<Cell>>, p: Pos, side: int) -> bool {
    m[p.1]@[p.0].walls@[side]
}

/// Whether the cell at `p` has been visited.
pub open spec fn seen(m: Seq<Vec<Cell>>, p: Pos) -> bool {
    m[p.1]@[p.0].visited
}

/// `a` and `b` share an edge.
pub open spec fn adjacent(a: Pos, b: Pos) -> bool {
    ||| (a.0 == b.0 && (b.1 == a.1 - 1 || b.1 == a.1 + 1))
    ||| (a.1 == b.1 && (b.0 == a.0 - 1 || b.0 == a.0 + 1))
}

/// The side of `a` that faces the adjacent position `b`.
pub open spec fn side_toward(a: Pos, b: Pos) -> int {
    if b.1 == a.1 - 1 {
        0
    } else if b.0 == a.0 + 1 {
        1
    } else if b.1 == a.1 + 1 {
        2
    } else {
        3
    }
}

/// There is a passage from `a` to its neighbour `b`: both lie in the graph
/// and the wall of `a` that faces `b` has been removed.
pub open spec fn linked(m: Seq<Vec<Cell>>, w: int, h: int, a: Pos, b: Pos) -> bool {
    &&& inside(w, h, a)
    &&& inside(w, h, b)
    &&& adjacent(a, b)
    &&& !wall(m, a, side_toward(a, b))
}

/// Every wall is recorded alike on the two cells it separates, and the walls
/// around the outside of the graph stand.
pub open spec fn walls_consistent(m: Seq<Vec<Cell>>, w: int, h: int) -> bool {
    &&& forall|a: Pos, b: Pos| #[trigger] linked(m, w, h, a, b) ==> linked(m, w, h, b, a)
    &&& forall|p: Pos, side: int|
        inside(w, h, p) && 0 <= side < 4 && !inside(w, h, step(p, side)) ==> #[trigger] wall(
            m,
            p,
            side,
        )
}

/// `path` walks through passages only.
pub open spec fn is_path(m: Seq<Vec<Cell>>, w: int, h: int, path: Seq<Pos>) -> bool {
    &&& path.len() >= 1
    &&& inside(w, h, path[0])
    &&& forall|i: int| 0 <= i < path.len() - 1 ==> linked(m, w, h, #[trigger] path[i], path[i + 1])
}

/// Some walk through passages leads from `from` to `to`.
pub open spec fn reachable(m: Seq<Vec<Cell>>, w: int, h: int, from: Pos, to: Pos) -> bool {
    exists|path: Seq<Pos>| #[trigger]
        is_path(m, w, h, path) && path[0] == from && path.last() == to
}

/// `ring` is a closed walk through passages over at least three distinct cells.
pub open spec fn is_cycle(m: Seq<Vec<Cell>>, w: int, h: int, ring: Seq<Pos>) -> bool {
    &&& ring.len() >= 3
    &&& ring.no_duplicates()
    &&& forall|i: int| 0 <= i < ring.len() - 1 ==> linked(m, w, h, #[trigger] ring[i], ring[i + 1])
    &&& linked(m, w, h, ring.last(), ring[0])
}

/// The passages of `m` form a spanning tree of the `w` by `h` graph rooted at
/// `root`: every cell is visited and reachable from `root`, and no closed walk
/// exists.
pub open spec fn spanning_tree(m: Seq<Vec<Cell>>, w: int, h: int, root: Pos) -> bool {
    &&& is_cell_graph(m, w, h)
    &&& inside(w, h, root)
    &&& walls_consistent(m, w, h)
    &&& forall|p: Pos| inside(w, h, p) ==> #[trigger] seen(m, p)
    &&& forall|p: Pos| inside(w, h, p) ==> #[trigger] reachable(m, w, h, root, p)
    &&& forall|ring: Seq<Pos>| !#[trigger] is_cycle(m, w, h, ring)
}

/// A perfect maze of `w` columns and `h` rows, carved from the cell at the
/// origin.
pub open spec fn perfect_maze(m: Seq<Vec<Cell>>, w: int, h: int) -> bool {
    spanning_tree(m, w, h, (0, 0))
}

/// No cell of `m` is visited and every wall stands.
pub open spec fn untouched(m: Seq<Vec<Cell>>, w: int, h: int) -> bool {
    &&& is_cell_graph(m, w, h)
    &&& forall|p: Pos| inside(w, h, p) ==> !#[trigger] seen(m, p)
    &&& forall|p: Pos, side: int| inside(w, h, p) && 0 <= side < 4 ==> #[trigger] wall(m, p, side)
}

} // verus!
