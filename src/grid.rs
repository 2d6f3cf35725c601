//! The wall grid of a maze and the walks through it.
use vstd::prelude::*;
use crate::counting::{
    count_false, lemma_count_false_clear, lemma_rows_false_none, lemma_rows_false_update,
    rows_false,
};

verus! {

/// A maze of `width` by `height` cells.
///
/// `vert_walls[y][x]` is the wall between cells `(x - 1, y)` and `(x, y)`, for
/// `x` in `0..=width`; `hor_walls[y][x]` is the wall between cells `(x, y - 1)`
/// and `(x, y)`, for `y` in `0..=height`. `true` means the wall stands.
pub struct Maze {
    pub width: usize,
    pub height: usize,
    pub vert_walls: Vec<Vec<bool>>,
    pub hor_walls: Vec<Vec<bool>>,
}

/// A cell as a pair of mathematical integers `(x, y)`.
pub type Cell = (int, int);

impl Maze {
    /// The registries have the shape that `width` and `height` give, and the
    /// number of cells fits in a `usize`.
    pub open spec fn wf(&self) -> bool {
        &&& self.width >= 1
        &&& self.height >= 1
        &&& self.width * self.height <= usize::MAX
        &&& self.vert_walls@.len() == self.height
        &&& forall|y: int|
            0 <= y < self.height ==> (#[trigger] self.vert_walls@[y])@.len() == self.width + 1
        &&& self.hor_walls@.len() == self.height + 1
        &&& forall|y: int|
            0 <= y <= self.height ==> (#[trigger] self.hor_walls@[y])@.len() == self.width
    }

    pub open spec fn vwall(&self, x: int, y: int) -> bool {
        self.vert_walls@[y]@[x]
    }

    pub open spec fn hwall(&self, x: int, y: int) -> bool {
        self.hor_walls@[y]@[x]
    }

    /// Every wall on the outer boundary stands.
    pub open spec fn boundary_closed(&self) -> bool {
        &&& forall|y: int| 0 <= y < self.height ==> #[trigger] self.vwall(0, y)
        &&& forall|y: int| 0 <= y < self.height ==> #[trigger] self.vwall(self.width as int, y)
        &&& forall|x: int| 0 <= x < self.width ==> #[trigger] self.hwall(x, 0)
        &&& forall|x: int| 0 <= x < self.width ==> #[trigger] self.hwall(x, self.height as int)
    }

    pub open spec fn in_grid(&self, c: Cell) -> bool {
        0 <= c.0 < self.width && 0 <= c.1 < self.height
    }

    /// Linear index of a cell: `y * width + x`.
    pub open spec fn index_of(&self, c: Cell) -> int {
        c.1 * self.width + c.0
    }

    /// The cell with linear index `i`.
    pub open spec fn cell_of(&self, i: int) -> Cell {
        (i % self.width as int, i / self.width as int)
    }

    /// `a` and `b` are cells next to each other with no wall between them.
    pub open spec fn open_step(&self, a: Cell, b: Cell) -> bool {
        &&& self.in_grid(a)
        &&& self.in_grid(b)
        &&& {
            ||| (b.0 == a.0 + 1 && b.1 == a.1 && !self.vwall(b.0, a.1))
            ||| (b.0 == a.0 - 1 && b.1 == a.1 && !self.vwall(a.0, a.1))
            ||| (b.1 == a.1 + 1 && b.0 == a.0 && !self.hwall(a.0, b.1))
            ||| (b.1 == a.1 - 1 && b.0 == a.0 && !self.hwall(a.0, a.1))
        }
    }

    /// A non-empty sequence of cells, each step between open neighbours.
    pub open spec fn is_walk(&self, p: Seq<Cell>) -> bool {
        &&& p.len() >= 1
        &&& self.in_grid(p[0])
        &&& forall|i: int|
            0 <= i < p.len() - 1 ==> #[trigger] self.open_step(p[i], p[i + 1])
    }

    /// `p` is a walk from `a` to `b`.
    pub open spec fn walk_between(&self, p: Seq<Cell>, a: Cell, b: Cell) -> bool {
        self.is_walk(p) && p[0] == a && p.last() == b
    }

    /// `c` can be reached from the top-left cell without crossing a wall.
    pub open spec fn reachable(&self, c: Cell) -> bool {
        exists|p: Seq<Cell>| self.walk_between(p, (0, 0), c)
    }

    /// The bottom-right cell.
    pub open spec fn goal(&self) -> Cell {
        (self.width - 1, self.height - 1)
    }

    /// The vertical-wall registry as rows of booleans.
    pub open spec fn vert_view(&self) -> Seq<Seq<bool>> {
        self.vert_walls@.map_values(|r: Vec<bool>| r@)
    }

    /// The horizontal-wall registry as rows of booleans.
    pub open spec fn hor_view(&self) -> Seq<Seq<bool>> {
        self.hor_walls@.map_values(|r: Vec<bool>| r@)
    }

    /// Number of walls that have been taken down.
    pub open spec fn removed_walls(&self) -> nat {
        rows_false(self.vert_walls@) + rows_false(self.hor_walls@)
    }

    /// Every wall of the grid stands.
    pub open spec fn all_walls(&self) -> bool {
        &&& forall|y: int, x: int|
            0 <= y < self.height && 0 <= x <= self.width ==> #[trigger] self.vwall(x, y)
        &&& forall|y: int, x: int|
            0 <= y <= self.height && 0 <= x < self.width ==> #[trigger] self.hwall(x, y)
    }

    /// A grid of `width` by `height` cells with every wall standing.
    pub fn new(width: usize, height: usize) -> (m: Maze)
        requires
            width >= 1,
            height >= 1,
            width < usize::MAX,
            height < usize::MAX,
            width * height <= usize::MAX,
        ensures
            m.width == width,
            m.height == height,
            m.wf(),
            m.all_walls(),
            m.removed_walls() == 0,
    {
        let vert_walls = full_rows(height, width + 1);
        let hor_walls = full_rows(height + 1, width);
        let m = Maze { width, height, vert_walls, hor_walls };
        proof {
            lemma_rows_false_none(m.vert_walls@);
            lemma_rows_false_none(m.hor_walls@);
        }
        m
    }

    /// Whether the wall on the left of cell `(x, y)` stands.
    pub fn has_vertical_wall(&self, x: usize, y: usize) -> (r: bool)
        requires
            self.wf(),
            x <= self.width,
            y < self.height,
        ensures
            r == self.vwall(x as int, y as int),
    {
        self.vert_walls[y][x]
    }

    /// Whether the wall above cell `(x, y)` stands.
    pub fn has_horizontal_wall(&self, x: usize, y: usize) -> (r: bool)
        requires
            self.wf(),
            x < self.width,
            y <= self.height,
        ensures
            r == self.hwall(x as int, y as int),
    {
        self.hor_walls[y][x]
    }

    /// Takes down the wall on the left of cell `(x, y)`.
    pub fn remove_vertical_wall(&mut self, x: usize, y: usize)
        requires
            old(self).wf(),
            x <= old(self).width,
            y < old(self).height,
        ensures
            final(self).wf(),
            final(self).width == old(self).width,
            final(self).height == old(self).height,
            final(self).hor_walls@ == old(self).hor_walls@,
            final(self).vert_view() == old(self).vert_view().update(
                y as int,
                old(self).vert_view()[y as int].update(x as int, false),
            ),
            forall|i: int, j: int|
                0 <= j < old(self).height && 0 <= i <= old(self).width ==> #[trigger] final(self).vwall(i, j) == (old(self).vwall(i, j) && !(i == x && j == y)),
            final(self).removed_walls() == old(self).removed_walls() + (if old(self).vwall(
                x as int,
                y as int,
            ) {
                1nat
            } else {
                0nat
            }),
    {
        let ghost rows = self.vert_walls@;
        self.vert_walls[y][x] = false;
        proof {
            assert(self.vert_view() =~~= old(self).vert_view().update(
                y as int,
                old(self).vert_view()[y as int].update(x as int, false),
            ));
            lemma_rows_false_update(rows, y as int, self.vert_walls@[y as int]);
            if rows[y as int]@[x as int] {
                lemma_count_false_clear(rows[y as int]@, x as int);
            } else {
                assert(rows[y as int]@ =~= self.vert_walls@[y as int]@);
            }
        }
    }

    /// Takes down the wall above cell `(x, y)`.
    pub fn remove_horizontal_wall(&mut self, x: usize, y: usize)
        requires
            old(self).wf(),
            x < old(self).width,
            y <= old(self).height,
        ensures
            final(self).wf(),
            final(self).width == old(self).width,
            final(self).height == old(self).height,
            final(self).vert_walls@ == old(self).vert_walls@,
            final(self).hor_view() == old(self).hor_view().update(
                y as int,
                old(self).hor_view()[y as int].update(x as int, false),
            ),
            forall|i: int, j: int|
                0 <= j <= old(self).height && 0 <= i < old(self).width ==> #[trigger] final(self).hwall(i, j) == (old(self).hwall(i, j) && !(i == x && j == y)),
            final(self).removed_walls() == old(self).removed_walls() + (if old(self).hwall(
                x as int,
                y as int,
            ) {
                1nat
            } else {
                0nat
            }),
    {
        let ghost rows = self.hor_walls@;
        self.hor_walls[y][x] = false;
        proof {
            assert(self.hor_view() =~~= old(self).hor_view().update(
                y as int,
                old(self).hor_view()[y as int].update(x as int, false),
            ));
            lemma_rows_false_update(rows, y as int, self.hor_walls@[y as int]);
            if rows[y as int]@[x as int] {
                lemma_count_false_clear(rows[y as int]@, x as int);
            } else {
                assert(rows[y as int]@ =~= self.hor_walls@[y as int]@);
            }
        }
    }
}

/// With every wall standing, none has been taken down.
pub proof fn lemma_none_removed(m: &Maze)
    requires
        m.wf(),
        m.all_walls(),
    ensures
        m.removed_walls() == 0,
{
    assert forall|y: int, x: int|
        0 <= y < m.vert_walls@.len() && 0 <= x < m.vert_walls@[y]@.len() implies m.vert_walls@[y]@[x] by {
        assert(m.vwall(x, y));
    }
    assert forall|y: int, x: int|
        0 <= y < m.hor_walls@.len() && 0 <= x < m.hor_walls@[y]@.len() implies m.hor_walls@[y]@[x] by {
        assert(m.hwall(x, y));
    }
    lemma_rows_false_none(m.vert_walls@);
    lemma_rows_false_none(m.hor_walls@);
}

/// `rows` rows of `cols` entries, all `true`.
fn full_rows(rows: usize, cols: usize) -> (r: Vec<Vec<bool>>)
    ensures
        r@.len() == rows,
        forall|y: int| 0 <= y < rows ==> (#[trigger] r@[y])@.len() == cols,
        forall|y: int, x: int| 0 <= y < rows && 0 <= x < cols ==> #[trigger] r@[y]@[x],
{
    let mut r: Vec<Vec<bool>> = Vec::new();
    let mut y: usize = 0;
    while y < rows
        invariant
            y <= rows,
            r@.len() == y,
            forall|j: int| 0 <= j < y ==> (#[trigger] r@[j])@.len() == cols,
            forall|j: int, x: int| 0 <= j < y && 0 <= x < cols ==> #[trigger] r@[j]@[x],
        decreases rows - y,
    {
        let mut row: Vec<bool> = Vec::new();
        let mut x: usize = 0;
        while x < cols
            invariant
                x <= cols,
                row@.len() == x,
                forall|i: int| 0 <= i < x ==> #[trigger] row@[i],
            decreases cols - x,
        {
            row.push(true);
            x = x + 1;
        }
        r.push(row);
        y = y + 1;
    }
    r
}

} // verus!
