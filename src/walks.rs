//! Facts about walks, cell indices and wall removal.
use vstd::prelude::*;
use crate::grid::{Cell, Maze};

verus! {

/// `b` has the same shape as `a` and every wall that is down in `a` is down in `b`.
pub open spec fn opens_more(a: &Maze, b: &Maze) -> bool {
    &&& a.width == b.width
    &&& a.height == b.height
    &&& forall|x: int, y: int|
        0 <= y < a.height && 0 <= x <= a.width && !a.vwall(x, y) ==> !#[trigger] b.vwall(x, y)
    &&& forall|x: int, y: int|
        0 <= y <= a.height && 0 <= x < a.width && !a.hwall(x, y) ==> !#[trigger] b.hwall(x, y)
}

pub proof fn lemma_walk_mono(a: &Maze, b: &Maze, p: Seq<Cell>)
    requires
        opens_more(a, b),
        a.is_walk(p),
    ensures
        b.is_walk(p),
{
    assert forall|i: int| 0 <= i < p.len() - 1 implies #[trigger] b.open_step(p[i], p[i + 1]) by {
        assert(a.open_step(p[i], p[i + 1]));
    }
}

pub proof fn lemma_walk_push(m: &Maze, p: Seq<Cell>, c: Cell)
    requires
        m.is_walk(p),
        m.open_step(p.last(), c),
    ensures
        m.is_walk(p.push(c)),
        p.push(c)[0] == p[0],
        p.push(c).last() == c,
{
    let q = p.push(c);
    assert forall|i: int| 0 <= i < q.len() - 1 implies #[trigger] m.open_step(q[i], q[i + 1]) by {
        if i < p.len() - 1 {
            assert(m.open_step(p[i], p[i + 1]));
        }
    }
}

/// A cell of the grid has an index below `width * height`.
pub proof fn lemma_index_in_range(m: &Maze, c: Cell)
    requires
        m.in_grid(c),
    ensures
        0 <= m.index_of(c) < m.width * m.height,
{
    let w = m.width as int;
    let h = m.height as int;
    assert(0 <= c.1 * w + c.0 < w * h) by (nonlinear_arith)
        requires
            0 <= c.0 < w,
            0 <= c.1 < h,
    ;
}

/// Distinct cells have distinct indices.
pub proof fn lemma_index_injective(m: &Maze, a: Cell, b: Cell)
    requires
        m.in_grid(a),
        m.in_grid(b),
        a != b,
    ensures
        m.index_of(a) != m.index_of(b),
{
    let w = m.width as int;
    if a.1 == b.1 {
    } else if a.1 < b.1 {
        assert(a.1 * w + w <= b.1 * w) by (nonlinear_arith)
            requires
                a.1 < b.1,
                w >= 0,
        ;
    } else {
        assert(b.1 * w + w <= a.1 * w) by (nonlinear_arith)
            requires
                b.1 < a.1,
                w >= 0,
        ;
    }
}

/// The cell of an index in range lies in the grid and has that index.
pub proof fn lemma_cell_of_index(m: &Maze, i: int)
    requires
        m.width >= 1,
        0 <= i < m.width * m.height,
    ensures
        m.in_grid(m.cell_of(i)),
        m.index_of(m.cell_of(i)) == i,
{
    let w = m.width as int;
    let h = m.height as int;
    vstd::arithmetic::div_mod::lemma_fundamental_div_mod(i, w);
    let y = i / w;
    let x = i % w;
    assert(0 <= x < w) by {
        vstd::arithmetic::div_mod::lemma_mod_bound(i, w);
    }
    assert(0 <= y) by {
        vstd::arithmetic::div_mod::lemma_div_pos_is_pos(i, w);
    }
    assert(y * w == w * y) by (nonlinear_arith);
    if y >= h {
        assert(w * y + x >= w * h) by (nonlinear_arith)
            requires
                y >= h,
                w >= 1,
                x >= 0,
        ;
    }
}

} // verus!
