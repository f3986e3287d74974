//! Maze generation: a randomized depth-first walk that carves a spanning tree
//! into a fresh cell graph.

use rand::rngs::StdRng;
use vstd::prelude::*;
use crate::maze::{
    inside, is_cell_graph, is_cycle, perfect_maze, reachable, seen, spanning_tree, step,
    untouched, wall, Cell, Pos,
};
use crate::random::{fresh_seed, seeded, shuffle};
use crate::spanning::{
    all_cells, carve_of, carved, closed, lemma_all_cells, lemma_carve_extends, lemma_carved_graph,
    lemma_closed_reaches, lemma_no_cycle, lemma_recorded_reachable, lemma_start_carved, settled,
    Discovery,
};

verus! {

/// The four sides in some order: every side occurs.
spec fn is_side_order(sides: Seq<usize>) -> bool {
    &&& sides.len() == 4
    &&& forall|i: int| 0 <= i < 4 ==> #[trigger] sides[i] < 4
    &&& forall|side: usize| side < 4 ==> #[trigger] sides.contains(side)
}

/// The four sides in an order drawn from `rng`.
fn shuffled_sides(rng: &mut StdRng) -> (sides: [usize; 4])
    ensures
        is_side_order(sides@),
{
    let mut sides: [usize; 4] = [0, 1, 2, 3];
    let ghost before = sides@;
    shuffle(&mut sides, rng);
    proof {
        before.to_multiset_ensures();
        sides@.to_multiset_ensures();
        assert(sides@.to_multiset() == before.to_multiset());
        assert(before[0] == 0 && before[1] == 1 && before[2] == 2 && before[3] == 3);
        assert forall|side: usize| side < 4 implies #[trigger] sides@.contains(side) by {
            assert(before[side as int] == side);
            assert(before.contains(side));
            assert(before.to_multiset().count(side) > 0);
            assert(sides@.to_multiset().count(side) > 0);
        }
        assert forall|i: int| 0 <= i < 4 implies #[trigger] sides@[i] < 4 by {
            let side = sides@[i];
            assert(sides@.contains(side));
            assert(sides@.to_multiset().count(side) > 0);
            assert(before.to_multiset().count(side) > 0);
            assert(before.contains(side));
            let k = choose|k: int| 0 <= k < before.len() && before[k] == side;
            assert(before[k] == k);
        }
    }
    sides
}

/// The position next to `(x, y)` across its wall `side`, if it lies in the
/// graph.
fn neighbor(x: usize, y: usize, w: usize, h: usize, side: usize) -> (next: Option<(usize, usize)>)
    requires
        x < w,
        y < h,
        side < 4,
    ensures
        match next {
            Some(n) => {
                &&& inside(w as int, h as int, (n.0 as int, n.1 as int))
                &&& (n.0 as int, n.1 as int) == step((x as int, y as int), side as int)
            },
            None => !inside(w as int, h as int, step((x as int, y as int), side as int)),
        },
{
    if side == 0 {
        if y > 0 {
            Some((x, y - 1))
        } else {
            None
        }
    } else if side == 1 {
        if x + 1 < w {
            Some((x + 1, y))
        } else {
            None
        }
    } else if side == 2 {
        if y + 1 < h {
            Some((x, y + 1))
        } else {
            None
        }
    } else {
        if x > 0 {
            Some((x - 1, y))
        } else {
            None
        }
    }
}

/// Removes the wall between `(x, y)` and its neighbour `(nx, ny)` across
/// `side`, and marks the neighbour visited.
fn carve(
    grid: &mut Vec<Vec<Cell>>,
    x: usize,
    y: usize,
    nx: usize,
    ny: usize,
    side: usize,
    Ghost(w): Ghost<int>,
    Ghost(h): Ghost<int>,
)
    requires
        is_cell_graph(old(grid)@, w, h),
        inside(w, h, (x as int, y as int)),
        side < 4,
        inside(w, h, (nx as int, ny as int)),
        (nx as int, ny as int) == step((x as int, y as int), side as int),
    ensures
        carve_of(old(grid)@, final(grid)@, w, h, (x as int, y as int), side as int),
{
    let back: usize = if side < 2 {
        side + 2
    } else {
        side - 2
    };
    grid[y][x].walls[side] = false;
    grid[ny][nx].walls[back] = false;
    grid[ny][nx].visited = true;
}

/// A cell that the walk has entered and not yet left: its position, the order
/// in which its sides are tried, and how many of them have been tried.
struct Frame {
    x: usize,
    y: usize,
    sides: [usize; 4],
    next: usize,
}

/// Whether `f` is the frame of the cell at `p`.
spec fn frame_at(f: Frame, p: Pos) -> bool {
    f.x == p.0 && f.y == p.1
}

/// The cell at `p` has a frame on the stack.
spec fn on_stack(stack: Seq<Frame>, p: Pos) -> bool {
    exists|i: int| 0 <= i < stack.len() && frame_at(#[trigger] stack[i], p)
}

/// The frame belongs to a visited cell, and nothing is left to explore
/// across the sides it has tried.
spec fn frame_ok(m: Seq<Vec<Cell>>, w: int, h: int, f: Frame) -> bool {
    &&& inside(w, h, (f.x as int, f.y as int))
    &&& seen(m, (f.x as int, f.y as int))
    &&& f.next <= 4
    &&& is_side_order(f.sides@)
    &&& forall|i: int|
        0 <= i < f.next ==> settled(
            m,
            w,
            h,
            (f.x as int, f.y as int),
            #[trigger] f.sides@[i] as int,
        )
}

/// What the walk keeps true between two steps.
spec fn walking(
    m: Seq<Vec<Cell>>,
    w: int,
    h: int,
    d: Discovery,
    rest: Set<Pos>,
    stack: Seq<Frame>,
) -> bool {
    &&& carved(m, w, h, d)
    &&& is_cell_graph(m, w, h)
    &&& d.order.len() >= 1
    &&& rest.finite()
    &&& forall|p: Pos| inside(w, h, p) && !#[trigger] seen(m, p) ==> rest.contains(p)
    &&& forall|i: int| 0 <= i < stack.len() ==> frame_ok(m, w, h, #[trigger] stack[i])
    &&& forall|p: Pos|
        inside(w, h, p) && #[trigger] seen(m, p) ==> closed(m, w, h, p) || on_stack(stack, p)
}

/// The steps that the topmost frame can still take.
spec fn steps_left(stack: Seq<Frame>) -> int {
    if stack.len() > 0 {
        4 - stack.last().next
    } else {
        0
    }
}

/// A frame whose sides have all been tried belongs to a cell from which
/// nothing is left to explore, so the walk may leave it.
proof fn lemma_leave(
    m: Seq<Vec<Cell>>,
    w: int,
    h: int,
    d: Discovery,
    rest: Set<Pos>,
    stack: Seq<Frame>,
)
    requires
        walking(m, w, h, d, rest, stack),
        stack.len() > 0,
        stack.last().next == 4,
    ensures
        walking(m, w, h, d, rest, stack.drop_last()),
{
    let top = stack.last();
    let here = (top.x as int, top.y as int);
    let below = stack.drop_last();
    assert(frame_ok(m, w, h, stack[stack.len() - 1]));
    assert(closed(m, w, h, here)) by {
        assert forall|side: int| 0 <= side < 4 implies #[trigger] settled(m, w, h, here, side) by {
            assert(top.sides@.contains(side as usize));
            let i = choose|i: int| 0 <= i < top.sides@.len() && top.sides@[i] == side as usize;
            assert(settled(m, w, h, here, top.sides@[i] as int));
        }
    }
    assert forall|i: int| 0 <= i < below.len() implies frame_ok(m, w, h, #[trigger] below[i]) by {
        assert(below[i] == stack[i]);
    }
    assert forall|p: Pos| inside(w, h, p) && #[trigger] seen(m, p) implies closed(m, w, h, p)
        || on_stack(below, p) by {
        if !closed(m, w, h, p) {
            assert(on_stack(stack, p));
            let i = choose|i: int| 0 <= i < stack.len() && frame_at(#[trigger] stack[i], p);
            assert(i < stack.len() - 1);
            assert(frame_at(below[i], p));
        }
    }
}

/// Trying a side across which nothing is left to explore keeps the walk
/// in order.
proof fn lemma_skip(
    m: Seq<Vec<Cell>>,
    w: int,
    h: int,
    d: Discovery,
    rest: Set<Pos>,
    stack: Seq<Frame>,
    after: Seq<Frame>,
)
    requires
        walking(m, w, h, d, rest, stack),
        stack.len() > 0,
        stack.last().next < 4,
        settled(
            m,
            w,
            h,
            (stack.last().x as int, stack.last().y as int),
            stack.last().sides@[stack.last().next as int] as int,
        ),
        after == stack.update(
            stack.len() - 1,
            Frame {
                x: stack.last().x,
                y: stack.last().y,
                sides: stack.last().sides,
                next: (stack.last().next + 1) as usize,
            },
        ),
    ensures
        walking(m, w, h, d, rest, after),
{
    let n = stack.len() - 1;
    assert(frame_ok(m, w, h, stack[n]));
    assert forall|i: int| 0 <= i < after.len() implies frame_ok(m, w, h, #[trigger] after[i]) by {
        if i < n {
            assert(after[i] == stack[i]);
        }
    }
    assert forall|p: Pos| inside(w, h, p) && #[trigger] seen(m, p) implies closed(m, w, h, p)
        || on_stack(after, p) by {
        if !closed(m, w, h, p) {
            let i = choose|i: int| 0 <= i < stack.len() && frame_at(#[trigger] stack[i], p);
            assert(frame_at(after[i], p));
        }
    }
}

/// Carving across the side that the topmost frame tries next, and entering
/// the cell beyond, keeps the walk in order and leaves one cell fewer to
/// visit.
proof fn lemma_enter(
    m: Seq<Vec<Cell>>,
    m2: Seq<Vec<Cell>>,
    w: int,
    h: int,
    d: Discovery,
    rest: Set<Pos>,
    stack: Seq<Frame>,
    after: Seq<Frame>,
    fresh: Frame,
)
    requires
        walking(m, w, h, d, rest, stack),
        stack.len() > 0,
        stack.last().next < 4,
        inside(
            w,
            h,
            step(
                (stack.last().x as int, stack.last().y as int),
                stack.last().sides@[stack.last().next as int] as int,
            ),
        ),
        !seen(
            m,
            step(
                (stack.last().x as int, stack.last().y as int),
                stack.last().sides@[stack.last().next as int] as int,
            ),
        ),
        carve_of(
            m,
            m2,
            w,
            h,
            (stack.last().x as int, stack.last().y as int),
            stack.last().sides@[stack.last().next as int] as int,
        ),
        frame_at(
            fresh,
            step(
                (stack.last().x as int, stack.last().y as int),
                stack.last().sides@[stack.last().next as int] as int,
            ),
        ),
        fresh.next == 0,
        is_side_order(fresh.sides@),
        after == stack.update(
            stack.len() - 1,
            Frame {
                x: stack.last().x,
                y: stack.last().y,
                sides: stack.last().sides,
                next: (stack.last().next + 1) as usize,
            },
        ).push(fresh),
    ensures
        ({
            let here = (stack.last().x as int, stack.last().y as int);
            let beyond = step(here, stack.last().sides@[stack.last().next as int] as int);
            &&& walking(m2, w, h, d.extend(here, beyond), rest.remove(beyond), after)
            &&& d.extend(here, beyond).order[0] == d.order[0]
            &&& rest.remove(beyond).len() < rest.len()
        }),
{
    let n = stack.len() - 1;
    let top = stack[n];
    let here = (top.x as int, top.y as int);
    let side = top.sides@[top.next as int] as int;
    let beyond = step(here, side);
    assert(frame_ok(m, w, h, stack[n]));
    assert(0 <= side < 4);
    lemma_carve_extends(m, m2, w, h, d, here, side);
    lemma_carved_graph(m2, w, h, d.extend(here, beyond));
    assert(rest.contains(beyond));
    assert forall|p: Pos, s: int| settled(m, w, h, p, s) implies settled(m2, w, h, p, s) by {
        if inside(w, h, step(p, s)) {
            assert(seen(m, step(p, s)));
            assert(seen(m2, step(p, s)));
        }
    }
    assert forall|i: int| 0 <= i < after.len() implies frame_ok(m2, w, h, #[trigger] after[i]) by {
        if i < n {
            assert(after[i] == stack[i]);
            assert(frame_ok(m, w, h, stack[i]));
            assert(seen(m2, (stack[i].x as int, stack[i].y as int)));
        } else if i == n {
            assert(seen(m2, here));
            assert(seen(m2, beyond));
            assert forall|k: int| 0 <= k < after[i].next implies settled(
                m2,
                w,
                h,
                here,
                #[trigger] after[i].sides@[k] as int,
            ) by {
                if k < top.next {
                    assert(settled(m, w, h, here, top.sides@[k] as int));
                }
            }
        } else {
            assert(after[i] == fresh);
            assert(seen(m2, beyond));
        }
    }
    assert forall|p: Pos| inside(w, h, p) && #[trigger] seen(m2, p) implies closed(m2, w, h, p)
        || on_stack(after, p) by {
        if p == beyond {
            assert(frame_at(after[n + 1], p));
        } else {
            assert(seen(m, p));
            if closed(m, w, h, p) {
                assert forall|s: int| 0 <= s < 4 implies #[trigger] settled(m2, w, h, p, s) by {
                    assert(settled(m, w, h, p, s));
                }
            } else {
                let i = choose|i: int| 0 <= i < stack.len() && frame_at(#[trigger] stack[i], p);
                assert(frame_at(after[i], p));
            }
        }
    }
    assert forall|p: Pos| inside(w, h, p) && !#[trigger] seen(m2, p) implies rest.remove(
        beyond,
    ).contains(p) by {
        assert(!seen(m, p));
    }
}

/// Once no frame is left, the passages form a spanning tree rooted at the
/// first recorded cell.
proof fn lemma_walk_done(m: Seq<Vec<Cell>>, w: int, h: int, d: Discovery, rest: Set<Pos>)
    requires
        walking(m, w, h, d, rest, Seq::<Frame>::empty()),
    ensures
        spanning_tree(m, w, h, d.order[0]),
{
    let root = d.order[0];
    lemma_carved_graph(m, w, h, d);
    assert(d.order.contains(root));
    assert(seen(m, root));
    assert forall|q: Pos| inside(w, h, q) && #[trigger] seen(m, q) implies closed(m, w, h, q) by {
        assert(!on_stack(Seq::<Frame>::empty(), q));
    }
    assert forall|p: Pos| inside(w, h, p) implies #[trigger] seen(m, p) by {
        lemma_closed_reaches(m, w, h, root, p);
    }
    assert forall|p: Pos| inside(w, h, p) implies #[trigger] reachable(m, w, h, root, p) by {
        assert(seen(m, p));
        assert(d.order.contains(p));
        let i = d.order.index_of(p);
        lemma_recorded_reachable(m, w, h, d, i);
    }
    assert forall|ring: Seq<Pos>| !#[trigger] is_cycle(m, w, h, ring) by {
        lemma_no_cycle(m, w, h, d, ring);
    }
}

/// Carves a maze into the fresh graph `grid`, walking depth-first from the
/// cell at `(x, y)` and trying the sides of each cell it enters in an order
/// drawn from `rng`. Whatever `rng` yields, the passages form a spanning tree
/// rooted at `(x, y)`.
pub fn backtrack(
    x: usize,
    y: usize,
    w: usize,
    h: usize,
    grid: &mut Vec<Vec<Cell>>,
    rng: &mut StdRng,
)
    requires
        untouched(old(grid)@, w as int, h as int),
        x < w,
        y < h,
    ensures
        spanning_tree(final(grid)@, w as int, h as int, (x as int, y as int)),
{
    let ghost root = (x as int, y as int);
    let ghost m0 = grid@;
    grid[y][x].visited = true;
    let ghost mut d = Discovery::start(root);
    let ghost mut rest = all_cells(w as nat, h as nat);
    let first = shuffled_sides(rng);
    let mut stack: Vec<Frame> = Vec::new();
    stack.push(Frame { x, y, sides: first, next: 0 });
    proof {
        let m = grid@;
        assert(is_cell_graph(m, w as int, h as int));
        assert forall|p: Pos| inside(w as int, h as int, p) implies (#[trigger] seen(m, p) <==> p
            == root) by {
            assert(!seen(m0, p));
        }
        assert forall|p: Pos, side: int|
            inside(w as int, h as int, p) && 0 <= side < 4 implies #[trigger] wall(m, p, side) by {
            assert(wall(m0, p, side));
        }
        lemma_start_carved(m, w as int, h as int, root);
        lemma_carved_graph(m, w as int, h as int, d);
        lemma_all_cells(w as nat, h as nat);
        assert(frame_at(stack@[0], root));
        assert forall|p: Pos| inside(w as int, h as int, p) && #[trigger] seen(m, p) implies closed(
            m,
            w as int,
            h as int,
            p,
        ) || on_stack(stack@, p) by {
            assert(on_stack(stack@, p));
        }
    }
    while stack.len() > 0
        invariant
            walking(grid@, w as int, h as int, d, rest, stack@),
            d.order[0] == root,
        decreases rest.len(), stack@.len(), steps_left(stack@),
    {
        let top = stack.len() - 1;
        let next = stack[top].next;
        assert(frame_ok(grid@, w as int, h as int, stack@[top as int]));
        if next >= 4 {
            proof {
                lemma_leave(grid@, w as int, h as int, d, rest, stack@);
            }
            stack.pop();
        } else {
            let cx = stack[top].x;
            let cy = stack[top].y;
            let side = stack[top].sides[next];
            let ghost before = stack@;
            stack[top].next = next + 1;
            let mut enter: Option<(usize, usize)> = None;
            match neighbor(cx, cy, w, h, side) {
                Some((nx, ny)) => {
                    if !grid[ny][nx].visited {
                        enter = Some((nx, ny));
                    }
                },
                None => {},
            }
            match enter {
                Some((nx, ny)) => {
                    let ghost m = grid@;
                    carve(grid, cx, cy, nx, ny, side, Ghost(w as int), Ghost(h as int));
                    let fresh = shuffled_sides(rng);
                    stack.push(Frame { x: nx, y: ny, sides: fresh, next: 0 });
                    proof {
                        let here = (cx as int, cy as int);
                        let beyond = (nx as int, ny as int);
                        lemma_enter(
                            m,
                            grid@,
                            w as int,
                            h as int,
                            d,
                            rest,
                            before,
                            stack@,
                            stack@.last(),
                        );
                        d = d.extend(here, beyond);
                        rest = rest.remove(beyond);
                    }
                },
                None => {
                    proof {
                        lemma_skip(grid@, w as int, h as int, d, rest, before, stack@);
                    }
                },
            }
        }
    }
    proof {
        assert(stack@ =~= Seq::<Frame>::empty());
        lemma_walk_done(grid@, w as int, h as int, d, rest);
    }
}

/// A graph of `h` rows of `w` cells that the walk has not touched.
fn fresh_cells(w: usize, h: usize) -> (grid: Vec<Vec<Cell>>)
    ensures
        untouched(grid@, w as int, h as int),
{
    let mut grid: Vec<Vec<Cell>> = Vec::new();
    let mut y: usize = 0;
    while y < h
        invariant
            y <= h,
            grid@.len() == y,
            forall|k: int| 0 <= k < y ==> (#[trigger] grid@[k])@.len() == w,
            forall|k: int, j: int|
                0 <= k < y && 0 <= j < w ==> !(#[trigger] grid@[k]@[j]).visited && forall|s: int|
                    0 <= s < 4 ==> grid@[k]@[j].walls@[s],
        decreases h - y,
    {
        let mut row: Vec<Cell> = Vec::new();
        let mut x: usize = 0;
        while x < w
            invariant
                x <= w,
                row@.len() == x,
                forall|j: int|
                    0 <= j < x ==> !(#[trigger] row@[j]).visited && forall|s: int|
                        0 <= s < 4 ==> row@[j].walls@[s],
            decreases w - x,
        {
            row.push(Cell::new());
            x += 1;
        }
        grid.push(row);
        y += 1;
    }
    proof {
        assert forall|p: Pos| inside(w as int, h as int, p) implies !#[trigger] seen(grid@, p) by {
            assert(!grid@[p.1]@[p.0].visited);
        }
        assert forall|p: Pos, side: int|
            inside(w as int, h as int, p) && 0 <= side < 4 implies #[trigger] wall(
            grid@,
            p,
            side,
        ) by {
            assert(!grid@[p.1]@[p.0].visited);
        }
    }
    grid
}

/// Generates a perfect maze of `w` columns and `h` rows, carved from the cell
/// at the origin with a random source seeded with `seed`. Which of the
/// perfect mazes comes out depends on the seed alone.
pub fn generate_maze_seeded(w: usize, h: usize, seed: u64) -> (maze: Vec<Vec<Cell>>)
    requires
        w >= 1,
        h >= 1,
    ensures
        perfect_maze(maze@, w as int, h as int),
{
    let mut rng = seeded(seed);
    let mut grid = fresh_cells(w, h);
    backtrack(0, 0, w, h, &mut grid, &mut rng);
    grid
}

/// Generates a perfect maze of `w` columns and `h` rows, carved from the cell
/// at the origin, from a seed drawn from the thread-local random source.
pub fn generate_maze(w: usize, h: usize) -> (maze: Vec<Vec<Cell>>)
    requires
        w >= 1,
        h >= 1,
    ensures
        perfect_maze(maze@, w as int, h as int),
{
    generate_maze_seeded(w, h, fresh_seed())
}

} // verus!
