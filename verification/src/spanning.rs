//! Why a depth-first carving walk leaves a spanning tree: the record of the
//! walk, what each carving step keeps true of it, and what follows once the
//! walk has run out of cells.

use vstd::prelude::*;
use crate::maze::{
    adjacent, inside, is_cell_graph, is_cycle, is_path, linked, opposite, reachable, seen,
    side_toward, step, wall, walls_consistent, Cell, Pos,
};

verus! {

/// The record of a carving walk: the cells in the order in which they were
/// first reached and, for each but the first, the index of the cell from
/// which it was reached.
pub struct Discovery {
    pub order: Seq<Pos>,
    pub parent: Seq<int>,
}

impl Discovery {
    /// The record of a walk that has only reached `root`.
    pub open spec fn start(root: Pos) -> Discovery {
        Discovery { order: seq![root], parent: seq![0int] }
    }

    /// The record after the walk went from the recorded cell `from` to the new
    /// cell `to`.
    pub open spec fn extend(self, from: Pos, to: Pos) -> Discovery {
        Discovery {
            order: self.order.push(to),
            parent: self.parent.push(self.order.index_of(from)),
        }
    }
}

/// `d` records a walk that produced exactly the passages of `m`.
#[verifier::opaque]
pub open spec fn carved(m: Seq<Vec<Cell>>, w: int, h: int, d: Discovery) -> bool {
    &&& is_cell_graph(m, w, h)
    &&& d.order.len() == d.parent.len()
    &&& d.order.len() >= 1
    &&& d.order.no_duplicates()
    &&& forall|i: int| 0 <= i < d.order.len() ==> inside(w, h, #[trigger] d.order[i])
    &&& forall|p: Pos| inside(w, h, p) ==> (#[trigger] seen(m, p) <==> d.order.contains(p))
    &&& walls_consistent(m, w, h)
    &&& forall|i: int|
        1 <= i < d.order.len() ==> 0 <= #[trigger] d.parent[i] < i && linked(
            m,
            w,
            h,
            d.order[d.parent[i]],
            d.order[i],
        )
    &&& forall|i: int, j: int|
        0 <= j < i < d.order.len() && #[trigger] linked(m, w, h, d.order[j], d.order[i]) ==> j
            == d.parent[i]
    &&& forall|a: Pos, b: Pos| #[trigger] linked(m, w, h, a, b) ==> seen(m, a) && seen(m, b)
}

/// `m2` is `m` after the walk went from `a` across its wall `side`: the wall
/// is removed on both cells and the cell beyond is marked visited.
pub open spec fn carve_of(
    m: Seq<Vec<Cell>>,
    m2: Seq<Vec<Cell>>,
    w: int,
    h: int,
    a: Pos,
    side: int,
) -> bool {
    &&& is_cell_graph(m2, w, h)
    &&& forall|p: Pos|
        inside(w, h, p) ==> (#[trigger] seen(m2, p) <==> seen(m, p) || p == step(a, side))
    &&& forall|p: Pos, s: int|
        inside(w, h, p) && 0 <= s < 4 ==> (#[trigger] wall(m2, p, s) <==> wall(m, p, s) && !(p == a
            && s == side) && !(p == step(a, side) && s == opposite(side)))
}

/// A graph in which only `root` is visited and all walls stand is the result
/// of the walk that has only reached `root`.
pub proof fn lemma_start_carved(m: Seq<Vec<Cell>>, w: int, h: int, root: Pos)
    requires
        is_cell_graph(m, w, h),
        inside(w, h, root),
        forall|p: Pos| inside(w, h, p) ==> (#[trigger] seen(m, p) <==> p == root),
        forall|p: Pos, side: int| inside(w, h, p) && 0 <= side < 4 ==> #[trigger] wall(m, p, side),
    ensures
        carved(m, w, h, Discovery::start(root)),
{
    reveal(carved);
    let d = Discovery::start(root);
    assert(d.order[0] == root);
    assert forall|p: Pos| inside(w, h, p) implies (#[trigger] seen(m, p) <==> d.order.contains(
        p,
    )) by {
        if d.order.contains(p) {
            let i = choose|i: int| 0 <= i < d.order.len() && d.order[i] == p;
            assert(p == root);
        }
    }
    assert forall|a: Pos, b: Pos| !#[trigger] linked(m, w, h, a, b) by {
        if inside(w, h, a) && adjacent(a, b) {
            assert(wall(m, a, side_toward(a, b)));
        }
    }
}

/// A carving step extends the record by the cell it reaches.
pub proof fn lemma_carve_extends(
    m: Seq<Vec<Cell>>,
    m2: Seq<Vec<Cell>>,
    w: int,
    h: int,
    d: Discovery,
    a: Pos,
    side: int,
)
    requires
        carved(m, w, h, d),
        inside(w, h, a),
        seen(m, a),
        0 <= side < 4,
        inside(w, h, step(a, side)),
        !seen(m, step(a, side)),
        carve_of(m, m2, w, h, a, side),
    ensures
        carved(m2, w, h, d.extend(a, step(a, side))),
        d.extend(a, step(a, side)).order[0] == d.order[0],
{
    reveal(carved);
    let b = step(a, side);
    let d2 = d.extend(a, b);
    let n = d.order.len() as int;
    let ai = d.order.index_of(a);
    assert(d.order.contains(a));
    assert(0 <= ai < n && d.order[ai] == a);
    assert(!d.order.contains(b));
    assert(adjacent(a, b));
    assert(side_toward(a, b) == side);
    assert(side_toward(b, a) == opposite(side));
    // How passages of the new graph relate to those of the old one.
    assert forall|p: Pos, q: Pos| #[trigger]
        linked(m2, w, h, p, q) <==> linked(m, w, h, p, q) || (p == a && q == b) || (p == b && q
            == a) by {
        if inside(w, h, p) && inside(w, h, q) && adjacent(p, q) {
            let s = side_toward(p, q);
            assert(0 <= s < 4);
            assert(wall(m2, p, s) <==> wall(m, p, s) && !(p == a && s == side) && !(p == b && s
                == opposite(side)));
            if p == a && s == side {
                assert(q == b);
            }
            if p == b && s == opposite(side) {
                assert(q == a);
            }
        }
    }
    assert(d2.order.no_duplicates());
    assert forall|i: int| 0 <= i < d2.order.len() implies inside(w, h, #[trigger] d2.order[i]) by {
        if i < n {
            assert(d2.order[i] == d.order[i]);
        }
    }
    assert forall|p: Pos| inside(w, h, p) implies (#[trigger] seen(m2, p) <==> d2.order.contains(
        p,
    )) by {
        if d.order.contains(p) {
            let i = d.order.index_of(p);
            assert(d2.order[i] == p);
        }
        if p == b {
            assert(d2.order[n] == p);
        }
        if d2.order.contains(p) {
            let i = choose|i: int| 0 <= i < d2.order.len() && d2.order[i] == p;
            if i < n {
                assert(d.order[i] == p);
            }
        }
    }
    assert(walls_consistent(m2, w, h)) by {
        assert forall|p: Pos, q: Pos| #[trigger] linked(m2, w, h, p, q) implies linked(
            m2,
            w,
            h,
            q,
            p,
        ) by {
            if linked(m, w, h, p, q) {
                assert(linked(m, w, h, q, p));
            }
        }
        assert forall|p: Pos, s: int|
            inside(w, h, p) && 0 <= s < 4 && !inside(w, h, step(p, s)) implies #[trigger] wall(
            m2,
            p,
            s,
        ) by {
            assert(wall(m, p, s));
        }
    }
    assert forall|i: int| 1 <= i < d2.order.len() implies 0 <= #[trigger] d2.parent[i] < i
        && linked(m2, w, h, d2.order[d2.parent[i]], d2.order[i]) by {
        if i < n {
            assert(d2.parent[i] == d.parent[i]);
            assert(linked(m, w, h, d.order[d.parent[i]], d.order[i]));
        } else {
            assert(d2.parent[i] == ai);
            assert(linked(m2, w, h, a, b));
        }
    }
    assert forall|i: int, j: int|
        0 <= j < i < d2.order.len() && #[trigger] linked(
            m2,
            w,
            h,
            d2.order[j],
            d2.order[i],
        ) implies j == d2.parent[i] by {
        if i < n {
            assert(d2.order[i] == d.order[i] && d2.order[j] == d.order[j]);
            assert(d.order[i] != b && d.order[j] != b);
            assert(linked(m, w, h, d.order[j], d.order[i]));
        } else {
            assert(d2.order[i] == b);
            assert(d2.order[j] == d.order[j]);
            if linked(m, w, h, d.order[j], b) {
                assert(seen(m, b));
            }
            assert(d.order[j] == a);
        }
    }
    assert forall|p: Pos, q: Pos| #[trigger] linked(m2, w, h, p, q) implies seen(m2, p) && seen(
        m2,
        q,
    ) by {
        if linked(m, w, h, p, q) {
            assert(seen(m, p) && seen(m, q));
        }
    }
}

/// Every recorded cell is reachable from the first one.
pub proof fn lemma_recorded_reachable(m: Seq<Vec<Cell>>, w: int, h: int, d: Discovery, i: int)
    requires
        carved(m, w, h, d),
        0 <= i < d.order.len(),
    ensures
        reachable(m, w, h, d.order[0], d.order[i]),
    decreases i,
{
    reveal(carved);
    if i == 0 {
        let path = seq![d.order[0]];
        assert(is_path(m, w, h, path) && path[0] == d.order[0] && path.last() == d.order[0]);
    } else {
        let k = d.parent[i];
        lemma_recorded_reachable(m, w, h, d, k);
        let before = choose|path: Seq<Pos>| #[trigger]
            is_path(m, w, h, path) && path[0] == d.order[0] && path.last() == d.order[k];
        let path = before.push(d.order[i]);
        assert forall|j: int| 0 <= j < path.len() - 1 implies linked(
            m,
            w,
            h,
            #[trigger] path[j],
            path[j + 1],
        ) by {
            if j < before.len() - 1 {
                assert(linked(m, w, h, before[j], before[j + 1]));
            }
        }
        assert(is_path(m, w, h, path) && path[0] == d.order[0] && path.last() == d.order[i]);
    }
}

/// Some position of `ring` was recorded last among the first `n`.
proof fn lemma_latest(d: Discovery, ring: Seq<Pos>, n: int) -> (k: int)
    requires
        1 <= n <= ring.len(),
    ensures
        0 <= k < n,
        forall|i: int|
            0 <= i < n ==> d.order.index_of(#[trigger] ring[i]) <= d.order.index_of(ring[k]),
    decreases n,
{
    if n == 1 {
        0
    } else {
        let k = lemma_latest(d, ring, n - 1);
        if d.order.index_of(ring[n - 1]) > d.order.index_of(ring[k]) {
            n - 1
        } else {
            k
        }
    }
}

/// What a record says of the graph it belongs to: the graph is well formed,
/// the first recorded cell lies in it, and the visited cells are exactly the
/// recorded ones.
pub proof fn lemma_carved_graph(m: Seq<Vec<Cell>>, w: int, h: int, d: Discovery)
    requires
        carved(m, w, h, d),
    ensures
        is_cell_graph(m, w, h),
        walls_consistent(m, w, h),
        d.order.len() >= 1,
        inside(w, h, d.order[0]),
        forall|p: Pos| inside(w, h, p) ==> (#[trigger] seen(m, p) <==> d.order.contains(p)),
{
    reveal(carved);
}

/// A cell has at most one neighbour across a passage that was recorded
/// before it: the cell from which the walk reached it.
proof fn lemma_one_earlier_neighbor(
    m: Seq<Vec<Cell>>,
    w: int,
    h: int,
    d: Discovery,
    x: Pos,
    z: Pos,
    y: Pos,
)
    requires
        carved(m, w, h, d),
        linked(m, w, h, x, z),
        linked(m, w, h, z, y),
        x != z,
        y != z,
        d.order.index_of(x) <= d.order.index_of(z),
        d.order.index_of(y) <= d.order.index_of(z),
    ensures
        x == y,
{
    reveal(carved);
    assert(linked(m, w, h, y, z));
    assert(seen(m, x) && seen(m, z) && seen(m, y));
    assert(d.order.contains(x) && d.order.contains(z) && d.order.contains(y));
    let ix = d.order.index_of(x);
    let iz = d.order.index_of(z);
    let iy = d.order.index_of(y);
    assert(0 <= ix < d.order.len() && d.order[ix] == x);
    assert(0 <= iz < d.order.len() && d.order[iz] == z);
    assert(0 <= iy < d.order.len() && d.order[iy] == y);
    assert(ix < iz && iy < iz);
    assert(linked(m, w, h, d.order[ix], d.order[iz]));
    assert(linked(m, w, h, d.order[iy], d.order[iz]));
    assert(ix == d.parent[iz]);
    assert(iy == d.parent[iz]);
}

/// The cell of a closed walk that was recorded last has two different
/// neighbours on the walk.
proof fn lemma_ring_neighbors(m: Seq<Vec<Cell>>, w: int, h: int, ring: Seq<Pos>, k: int) -> (r: (
    Pos,
    Pos,
))
    requires
        is_cycle(m, w, h, ring),
        0 <= k < ring.len(),
    ensures
        ring.contains(r.0),
        ring.contains(r.1),
        linked(m, w, h, r.0, ring[k]),
        linked(m, w, h, ring[k], r.1),
        r.0 != r.1,
        r.0 != ring[k],
        r.1 != ring[k],
{
    let n = ring.len() as int;
    let before = if k == 0 {
        n - 1
    } else {
        k - 1
    };
    let after = if k == n - 1 {
        0
    } else {
        k + 1
    };
    assert(linked(m, w, h, ring[before], ring[k])) by {
        if k == 0 {
            assert(ring.last() == ring[before]);
        } else {
            assert(linked(m, w, h, ring[k - 1], ring[k - 1 + 1]));
        }
    }
    assert(linked(m, w, h, ring[k], ring[after])) by {
        if k == n - 1 {
            assert(ring.last() == ring[k]);
        } else {
            assert(linked(m, w, h, ring[k], ring[k + 1]));
        }
    }
    assert(before != after && before != k && after != k);
    (ring[before], ring[after])
}

/// The passages left by a walk hold no closed walk.
pub proof fn lemma_no_cycle(m: Seq<Vec<Cell>>, w: int, h: int, d: Discovery, ring: Seq<Pos>)
    requires
        carved(m, w, h, d),
    ensures
        !is_cycle(m, w, h, ring),
{
    if is_cycle(m, w, h, ring) {
        let k = lemma_latest(d, ring, ring.len() as int);
        let r = lemma_ring_neighbors(m, w, h, ring, k);
        let i = choose|i: int| 0 <= i < ring.len() && ring[i] == r.0;
        let j = choose|j: int| 0 <= j < ring.len() && ring[j] == r.1;
        assert(d.order.index_of(ring[i]) <= d.order.index_of(ring[k]));
        assert(d.order.index_of(ring[j]) <= d.order.index_of(ring[k]));
        lemma_one_earlier_neighbor(m, w, h, d, r.0, ring[k], r.1);
    }
}

/// Whether nothing is left to explore from `p` across its wall `side`: the
/// position beyond lies outside the graph or has been visited.
pub open spec fn settled(m: Seq<Vec<Cell>>, w: int, h: int, p: Pos, side: int) -> bool {
    !inside(w, h, step(p, side)) || seen(m, step(p, side))
}

/// Nothing is left to explore from `p`.
pub open spec fn closed(m: Seq<Vec<Cell>>, w: int, h: int, p: Pos) -> bool {
    forall|side: int| 0 <= side < 4 ==> #[trigger] settled(m, w, h, p, side)
}

/// If nothing is left to explore from any visited cell, the cell at `p` has
/// been visited.
pub proof fn lemma_closed_reaches(m: Seq<Vec<Cell>>, w: int, h: int, root: Pos, p: Pos)
    requires
        inside(w, h, root),
        inside(w, h, p),
        seen(m, root),
        forall|q: Pos| inside(w, h, q) && #[trigger] seen(m, q) ==> closed(m, w, h, q),
    ensures
        seen(m, p),
    decreases
            (if p.0 >= root.0 {
                p.0 - root.0
            } else {
                root.0 - p.0
            }) + (if p.1 >= root.1 {
                p.1 - root.1
            } else {
                root.1 - p.1
            }),
{
    if p == root {
    } else if p.0 > root.0 {
        let q = (p.0 - 1, p.1);
        lemma_closed_reaches(m, w, h, root, q);
        assert(closed(m, w, h, q));
        assert(settled(m, w, h, q, 1));
        assert(step(q, 1) == p);
    } else if p.0 < root.0 {
        let q = (p.0 + 1, p.1);
        lemma_closed_reaches(m, w, h, root, q);
        assert(closed(m, w, h, q));
        assert(settled(m, w, h, q, 3));
        assert(step(q, 3) == p);
    } else if p.1 > root.1 {
        let q = (p.0, p.1 - 1);
        lemma_closed_reaches(m, w, h, root, q);
        assert(closed(m, w, h, q));
        assert(settled(m, w, h, q, 2));
        assert(step(q, 2) == p);
    } else {
        let q = (p.0, p.1 + 1);
        lemma_closed_reaches(m, w, h, root, q);
        assert(closed(m, w, h, q));
        assert(settled(m, w, h, q, 0));
        assert(step(q, 0) == p);
    }
}

/// The positions of row `y` in its first `w` columns.
pub open spec fn row_cells(w: nat, y: int) -> Set<Pos>
    decreases w,
{
    if w == 0 {
        Set::empty()
    } else {
        row_cells((w - 1) as nat, y).insert((w - 1, y))
    }
}

/// The positions of a graph of `w` columns and `h` rows.
pub open spec fn all_cells(w: nat, h: nat) -> Set<Pos>
    decreases h,
{
    if h == 0 {
        Set::empty()
    } else {
        all_cells(w, (h - 1) as nat).union(row_cells(w, h - 1))
    }
}

/// A row holds finitely many positions, namely those of its columns.
pub proof fn lemma_row_cells(w: nat, y: int)
    ensures
        row_cells(w, y).finite(),
        forall|p: Pos| #[trigger] row_cells(w, y).contains(p) <==> 0 <= p.0 < w && p.1 == y,
    decreases w,
{
    if w > 0 {
        lemma_row_cells((w - 1) as nat, y);
    }
}

/// A graph holds finitely many positions, namely those inside it.
pub proof fn lemma_all_cells(w: nat, h: nat)
    ensures
        all_cells(w, h).finite(),
        forall|p: Pos| #[trigger] all_cells(w, h).contains(p) <==> inside(w as int, h as int, p),
    decreases h,
{
    if h > 0 {
        lemma_all_cells(w, (h - 1) as nat);
        lemma_row_cells(w, h - 1);
    }
}

} // verus!
