//! What the expansion of a perfect maze looks like from inside the grid:
//! one region of traversable positions, and no way round in a circle.

use vstd::prelude::*;
use crate::grid::{between, center, is_expansion, is_grid, opened, opened_by, tile};
use crate::maze::{
    adjacent, inside, is_cycle, is_path, linked, perfect_maze, reachable, step, wall,
    walls_consistent, Cell, Pos,
};

verus! {

/// `route` walks over traversable positions of `g`, each step leading to one
/// of the four positions next to the last.
pub open spec fn is_route(g: Seq<Vec<u8>>, gw: int, gh: int, route: Seq<Pos>) -> bool {
    &&& route.len() >= 1
    &&& forall|i: int|
        0 <= i < route.len() ==> inside(gw, gh, #[trigger] route[i]) && tile(g, route[i]) == 0
    &&& forall|i: int| 0 <= i < route.len() - 1 ==> adjacent(#[trigger] route[i], route[i + 1])
}

/// Some walk over traversable positions leads from `from` to `to`.
pub open spec fn connected(g: Seq<Vec<u8>>, gw: int, gh: int, from: Pos, to: Pos) -> bool {
    exists|route: Seq<Pos>| #[trigger]
        is_route(g, gw, gh, route) && route[0] == from && route.last() == to
}

/// The cells `a` and `b` are neighbours and the grid position between them
/// is traversable.
pub open spec fn joined(g: Seq<Vec<u8>>, w: int, h: int, a: Pos, b: Pos) -> bool {
    &&& inside(w, h, a)
    &&& inside(w, h, b)
    &&& adjacent(a, b)
    &&& tile(g, between(a, b)) == 0
}

/// `ring` is a closed walk over at least three distinct cells, each step
/// crossing a traversable position between two neighbouring cells.
pub open spec fn is_loop(g: Seq<Vec<u8>>, w: int, h: int, ring: Seq<Pos>) -> bool {
    &&& ring.len() >= 3
    &&& ring.no_duplicates()
    &&& forall|i: int| 0 <= i < ring.len() - 1 ==> joined(g, w, h, #[trigger] ring[i], ring[i + 1])
    &&& joined(g, w, h, ring.last(), ring[0])
}

/// Two grids of the same dimensions hold the same bytes.
pub open spec fn same_bytes(g1: Seq<Vec<u8>>, g2: Seq<Vec<u8>>) -> bool {
    &&& g1.len() == g2.len()
    &&& forall|y: int| 0 <= y < g1.len() ==> (#[trigger] g1[y])@ == g2[y]@
}

/// Expansion is a function of the cell graph: any two expansions of one
/// graph are identical byte for byte.
pub proof fn lemma_expansion_unique(
    m: Seq<Vec<Cell>>,
    w: int,
    h: int,
    g1: Seq<Vec<u8>>,
    g2: Seq<Vec<u8>>,
)
    requires
        is_expansion(g1, m, w, h),
        is_expansion(g2, m, w, h),
    ensures
        same_bytes(g1, g2),
{
    assert forall|y: int| 0 <= y < g1.len() implies (#[trigger] g1[y])@ == g2[y]@ by {
        assert forall|x: int| 0 <= x < g1[y]@.len() implies g1[y]@[x] == g2[y]@[x] by {
            assert(tile(g1, (x, y)) == tile(g2, (x, y)));
        }
        assert(g1[y]@ =~= g2[y]@);
    }
}

/// In the expansion of any cell graph the position of every cell is
/// traversable.
pub proof fn lemma_centers_open(m: Seq<Vec<Cell>>, w: int, h: int, g: Seq<Vec<u8>>, c: Pos)
    requires
        is_expansion(g, m, w, h),
        inside(w, h, c),
    ensures
        inside(2 * w + 1, 2 * h + 1, center(c)),
        tile(g, center(c)) == 0,
{
    assert(opened_by(m, center(c), c));
    assert(opened(m, w, h, center(c)));
}

/// A passage between two cells shows in the expansion as a traversable
/// position between them.
proof fn lemma_passage_open(m: Seq<Vec<Cell>>, w: int, h: int, g: Seq<Vec<u8>>, a: Pos, b: Pos)
    requires
        is_expansion(g, m, w, h),
        linked(m, w, h, a, b),
    ensures
        inside(2 * w + 1, 2 * h + 1, between(a, b)),
        tile(g, between(a, b)) == 0,
        adjacent(center(a), between(a, b)),
        adjacent(between(a, b), center(b)),
{
    assert(opened_by(m, between(a, b), a));
    assert(opened(m, w, h, between(a, b)));
}

/// A traversable position between two neighbouring cells of a graph with
/// consistent walls comes from a passage between them.
proof fn lemma_joined_linked(m: Seq<Vec<Cell>>, w: int, h: int, g: Seq<Vec<u8>>, a: Pos, b: Pos)
    requires
        is_expansion(g, m, w, h),
        walls_consistent(m, w, h),
        joined(g, w, h, a, b),
    ensures
        linked(m, w, h, a, b),
{
    let s = between(a, b);
    assert(inside(2 * w + 1, 2 * h + 1, s));
    assert(opened(m, w, h, s));
    let c = choose|c: Pos| inside(w, h, c) && #[trigger] opened_by(m, s, c);
    if c == a {
        assert(linked(m, w, h, a, b));
    } else {
        assert(c == b);
        assert(linked(m, w, h, b, a));
    }
}

/// In the expansion of a graph with consistent walls, the position between
/// two neighbouring cells is traversable exactly if a passage joins them.
pub proof fn lemma_passages_match(
    m: Seq<Vec<Cell>>,
    w: int,
    h: int,
    g: Seq<Vec<u8>>,
    a: Pos,
    b: Pos,
)
    requires
        is_expansion(g, m, w, h),
        walls_consistent(m, w, h),
        inside(w, h, a),
        inside(w, h, b),
        adjacent(a, b),
    ensures
        tile(g, between(a, b)) == 0 <==> linked(m, w, h, a, b),
{
    if linked(m, w, h, a, b) {
        lemma_passage_open(m, w, h, g, a, b);
    }
    if tile(g, between(a, b)) == 0 {
        lemma_joined_linked(m, w, h, g, a, b);
    }
}

/// In the expansion of a graph with consistent walls, every position on the
/// rim of the grid is solid.
pub proof fn lemma_rim_solid(m: Seq<Vec<Cell>>, w: int, h: int, g: Seq<Vec<u8>>, s: Pos)
    requires
        is_expansion(g, m, w, h),
        walls_consistent(m, w, h),
        inside(2 * w + 1, 2 * h + 1, s),
        s.0 == 0 || s.0 == 2 * w || s.1 == 0 || s.1 == 2 * h,
    ensures
        tile(g, s) == 1,
{
    if opened(m, w, h, s) {
        let c = choose|c: Pos| inside(w, h, c) && #[trigger] opened_by(m, s, c);
        if s == (2 * c.0 + 1, 2 * c.1) {
            assert(!inside(w, h, step(c, 0)));
            assert(wall(m, c, 0));
        } else if s == (2 * c.0 + 2, 2 * c.1 + 1) {
            assert(!inside(w, h, step(c, 1)));
            assert(wall(m, c, 1));
        } else if s == (2 * c.0 + 1, 2 * c.1 + 2) {
            assert(!inside(w, h, step(c, 2)));
            assert(wall(m, c, 2));
        } else if s == (2 * c.0, 2 * c.1 + 1) {
            assert(!inside(w, h, step(c, 3)));
            assert(wall(m, c, 3));
        }
    }
}

/// Appending a traversable position next to its end extends a route.
proof fn lemma_route_push(g: Seq<Vec<u8>>, gw: int, gh: int, from: Pos, via: Pos, to: Pos)
    requires
        connected(g, gw, gh, from, via),
        inside(gw, gh, to),
        tile(g, to) == 0,
        adjacent(via, to),
    ensures
        connected(g, gw, gh, from, to),
{
    let route = choose|route: Seq<Pos>| #[trigger]
        is_route(g, gw, gh, route) && route[0] == from && route.last() == via;
    let longer = route.push(to);
    assert forall|i: int| 0 <= i < longer.len() implies inside(gw, gh, #[trigger] longer[i])
        && tile(g, longer[i]) == 0 by {
        if i < route.len() {
            assert(longer[i] == route[i]);
        }
    }
    assert forall|i: int| 0 <= i < longer.len() - 1 implies adjacent(
        #[trigger] longer[i],
        longer[i + 1],
    ) by {
        if i < route.len() - 1 {
            assert(adjacent(route[i], route[i + 1]));
        }
    }
    assert(is_route(g, gw, gh, longer) && longer[0] == from && longer.last() == to);
}

/// A walk through passages shows in the expansion as a route between the
/// positions of its first and last cell.
proof fn lemma_path_route(m: Seq<Vec<Cell>>, w: int, h: int, g: Seq<Vec<u8>>, path: Seq<Pos>)
    requires
        is_expansion(g, m, w, h),
        is_path(m, w, h, path),
    ensures
        connected(g, 2 * w + 1, 2 * h + 1, center(path[0]), center(path.last())),
    decreases path.len(),
{
    let gw = 2 * w + 1;
    let gh = 2 * h + 1;
    if path.len() == 1 {
        lemma_centers_open(m, w, h, g, path[0]);
        let route = seq![center(path[0])];
        assert(is_route(g, gw, gh, route) && route[0] == center(path[0]) && route.last() == center(
            path.last(),
        ));
    } else {
        let shorter = path.drop_last();
        let a = shorter.last();
        let b = path.last();
        assert forall|i: int| 0 <= i < shorter.len() - 1 implies linked(
            m,
            w,
            h,
            #[trigger] shorter[i],
            shorter[i + 1],
        ) by {
            assert(linked(m, w, h, path[i], path[i + 1]));
        }
        assert(is_path(m, w, h, shorter));
        lemma_path_route(m, w, h, g, shorter);
        assert(a == path[path.len() - 2]);
        assert(linked(m, w, h, path[path.len() - 2], path[path.len() - 2 + 1]));
        lemma_passage_open(m, w, h, g, a, b);
        lemma_centers_open(m, w, h, g, b);
        lemma_route_push(g, gw, gh, center(path[0]), center(a), between(a, b));
        lemma_route_push(g, gw, gh, center(path[0]), between(a, b), center(b));
    }
}

/// The expansion of a perfect maze is one region without circles: the grid
/// has `2h+1` rows of `2w+1` bytes, the position of every cell is
/// traversable, every traversable position can be reached from the position
/// of the first cell by steps to neighbouring traversable positions, and no
/// closed walk over three or more cells exists.
pub proof fn lemma_perfect_grid(m: Seq<Vec<Cell>>, w: int, h: int, g: Seq<Vec<u8>>)
    requires
        perfect_maze(m, w, h),
        is_expansion(g, m, w, h),
    ensures
        is_grid(g, 2 * w + 1, 2 * h + 1),
        forall|c: Pos| inside(w, h, c) ==> tile(g, #[trigger] center(c)) == 0,
        forall|s: Pos|
            inside(2 * w + 1, 2 * h + 1, s) && #[trigger] tile(g, s) == 0 ==> connected(
                g,
                2 * w + 1,
                2 * h + 1,
                (1, 1),
                s,
            ),
        forall|ring: Seq<Pos>| !#[trigger] is_loop(g, w, h, ring),
{
    let gw = 2 * w + 1;
    let gh = 2 * h + 1;
    let origin = (0int, 0int);
    assert(center(origin) == (1int, 1int));
    assert forall|c: Pos| inside(w, h, c) implies tile(g, #[trigger] center(c)) == 0 by {
        lemma_centers_open(m, w, h, g, c);
    }
    assert forall|s: Pos| inside(gw, gh, s) && #[trigger] tile(g, s) == 0 implies connected(
        g,
        gw,
        gh,
        (1, 1),
        s,
    ) by {
        assert(opened(m, w, h, s));
        let c = choose|c: Pos| inside(w, h, c) && #[trigger] opened_by(m, s, c);
        assert(reachable(m, w, h, origin, c));
        let path = choose|path: Seq<Pos>| #[trigger]
            is_path(m, w, h, path) && path[0] == origin && path.last() == c;
        lemma_path_route(m, w, h, g, path);
        if s != center(c) {
            assert(adjacent(center(c), s));
            lemma_route_push(g, gw, gh, (1, 1), center(c), s);
        }
    }
    assert forall|ring: Seq<Pos>| !#[trigger] is_loop(g, w, h, ring) by {
        if is_loop(g, w, h, ring) {
            assert forall|i: int| 0 <= i < ring.len() - 1 implies linked(
                m,
                w,
                h,
                #[trigger] ring[i],
                ring[i + 1],
            ) by {
                lemma_joined_linked(m, w, h, g, ring[i], ring[i + 1]);
            }
            lemma_joined_linked(m, w, h, g, ring.last(), ring[0]);
            assert(is_cycle(m, w, h, ring));
        }
    }
}

} // verus!
