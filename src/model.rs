//! The depth-first carving walk as a mathematical state machine.
use vstd::prelude::*;
use crate::carve::step;
use crate::grid::Cell;

verus! {

/// A state of the carving walk: wall registries, visit marks (by cell
/// index `y * width + x`) and the stack of frames `(x, y, next position)`.
pub struct WalkState {
    pub vert: Seq<Seq<bool>>,
    pub hor: Seq<Seq<bool>>,
    pub visited: Seq<bool>,
    pub stack: Seq<(usize, usize, usize)>,
}

/// `c` lies in the `w` by `h` grid and is not marked.
pub open spec fn fresh(w: int, h: int, visited: Seq<bool>, c: Cell) -> bool {
    0 <= c.0 < w && 0 <= c.1 < h && !visited[c.1 * w + c.0]
}

/// The first position at `d` or later in `ord` whose direction leads from
/// `c` to a fresh cell, or 4.
pub open spec fn first_fresh(w: int, h: int, visited: Seq<bool>, ord: Seq<u8>, c: Cell, d: int) -> int
    decreases 4 - d,
{
    if d >= 4 {
        4
    } else if fresh(w, h, visited, step(c, ord[d] as int)) {
        d
    } else {
        first_fresh(w, h, visited, ord, c, d + 1)
    }
}

/// The registries with the wall between `c` and its neighbour in direction
/// `dir` taken down.
pub open spec fn knock(vert: Seq<Seq<bool>>, hor: Seq<Seq<bool>>, c: Cell, dir: int) -> (Seq<Seq<bool>>, Seq<Seq<bool>>) {
    if dir == 0 {
        (vert.update(c.1, vert[c.1].update(c.0 + 1, false)), hor)
    } else if dir == 1 {
        (vert.update(c.1, vert[c.1].update(c.0, false)), hor)
    } else if dir == 2 {
        (vert, hor.update(c.1 + 1, hor[c.1 + 1].update(c.0, false)))
    } else {
        (vert, hor.update(c.1, hor[c.1].update(c.0, false)))
    }
}

/// One step of the walk: pop the top frame; at the first fresh direction
/// from its position on, take down that wall, mark the neighbour, and push
/// the frame back to resume after it followed by the neighbour's frame;
/// with none left, drop the frame. A walk with an empty stack stays put.
pub open spec fn walk_step(w: int, h: int, orders: Seq<Seq<u8>>, s: WalkState) -> WalkState {
    if s.stack.len() == 0 {
        s
    } else {
        let f = s.stack.last();
        let c = (f.0 as int, f.1 as int);
        let ord = orders[c.1 * w + c.0];
        let j = first_fresh(w, h, s.visited, ord, c, f.2 as int);
        let rest = s.stack.drop_last();
        if j < 4 {
            let n = step(c, ord[j] as int);
            let walls = knock(s.vert, s.hor, c, ord[j] as int);
            WalkState {
                vert: walls.0,
                hor: walls.1,
                visited: s.visited.update(n.1 * w + n.0, true),
                stack: rest.push((f.0, f.1, (j + 1) as usize)).push((n.0 as usize, n.1 as usize, 0usize)),
            }
        } else {
            WalkState { vert: s.vert, hor: s.hor, visited: s.visited, stack: rest }
        }
    }
}

/// `fuel` steps of the walk.
pub open spec fn walk_run(w: int, h: int, orders: Seq<Seq<u8>>, s: WalkState, fuel: nat) -> WalkState
    decreases fuel,
{
    if fuel == 0 {
        s
    } else {
        walk_run(w, h, orders, walk_step(w, h, orders, s), (fuel - 1) as nat)
    }
}

/// The fully walled grid with the top-left cell marked and its frame pushed.
pub open spec fn walk_start(w: int, h: int) -> WalkState {
    WalkState {
        vert: Seq::new(h as nat, |y: int| Seq::new((w + 1) as nat, |x: int| true)),
        hor: Seq::new((h + 1) as nat, |y: int| Seq::new(w as nat, |x: int| true)),
        visited: Seq::new((w * h) as nat, |i: int| i == 0),
        stack: seq![(0usize, 0usize, 0usize)],
    }
}

/// The state the walk reaches on a `w` by `h` grid: it has stopped after at
/// most `2 * w * h - 1` steps.
pub open spec fn carved(w: int, h: int, orders: Seq<Seq<u8>>) -> WalkState {
    walk_run(w, h, orders, walk_start(w, h), (2 * w * h) as nat)
}

/// The direction orderings as sequences.
pub open spec fn orders_view(orders: Seq<Vec<u8>>) -> Seq<Seq<u8>> {
    orders.map_values(|o: Vec<u8>| o@)
}

pub proof fn lemma_run_succ(w: int, h: int, orders: Seq<Seq<u8>>, s: WalkState, n: nat)
    ensures
        walk_run(w, h, orders, s, n + 1) == walk_step(w, h, orders, walk_run(w, h, orders, s, n)),
    decreases n,
{
    let t = walk_step(w, h, orders, s);
    if n > 0 {
        lemma_run_succ(w, h, orders, t, (n - 1) as nat);
        assert(walk_run(w, h, orders, s, n) == walk_run(w, h, orders, t, (n - 1) as nat));
    } else {
        assert(walk_run(w, h, orders, t, 0) == t);
    }
    assert(walk_run(w, h, orders, s, n + 1) == walk_run(w, h, orders, t, n));
}

/// A walk with an empty stack no longer changes.
pub proof fn lemma_run_stopped(w: int, h: int, orders: Seq<Seq<u8>>, s: WalkState, n: nat, extra: nat)
    requires
        walk_run(w, h, orders, s, n).stack.len() == 0,
    ensures
        walk_run(w, h, orders, s, n + extra) == walk_run(w, h, orders, s, n),
    decreases extra,
{
    if extra > 0 {
        lemma_run_stopped(w, h, orders, s, n, (extra - 1) as nat);
        lemma_run_succ(w, h, orders, s, (n + extra - 1) as nat);
    }
}

} // verus!
