//! Randomized depth-first carving of a fully walled grid into a spanning tree.
use vstd::prelude::*;
use crate::counting::{count_false, lemma_count_false_all, lemma_count_false_none, lemma_count_false_set};
use crate::grid::{lemma_none_removed, Cell, Maze};
use crate::model::{
    carved, first_fresh, knock, lemma_run_stopped, lemma_run_succ, orders_view, walk_run, walk_start,
    walk_step, WalkState,
};
use crate::walks::{
    lemma_cell_of_index, lemma_index_in_range, lemma_index_injective, lemma_walk_mono,
    lemma_walk_push, opens_more,
};

verus! {

/// The neighbour of `c` in direction `d`: 0 right, 1 left, 2 down, 3 up.
pub open spec fn step(c: Cell, d: int) -> Cell {
    if d == 0 {
        (c.0 + 1, c.1)
    } else if d == 1 {
        (c.0 - 1, c.1)
    } else if d == 2 {
        (c.0, c.1 + 1)
    } else {
        (c.0, c.1 - 1)
    }
}

/// An ordering of the four directions: each of 0, 1, 2, 3 exactly once.
pub open spec fn is_dir_order(s: Seq<u8>) -> bool {
    &&& s.len() == 4
    &&& forall|j: int| 0 <= j < 4 ==> #[trigger] s[j] < 4
    &&& forall|d: u8| d < 4 ==> #[trigger] s.contains(d)
}

impl Maze {
    /// The cell `c` is marked in `visited`.
    pub open spec fn seen(&self, visited: Seq<bool>, c: Cell) -> bool {
        visited[self.index_of(c)]
    }

    /// `c` lies outside the grid or is marked.
    pub open spec fn settled(&self, visited: Seq<bool>, c: Cell) -> bool {
        !self.in_grid(c) || self.seen(visited, c)
    }

    /// Every neighbour of `c` lies outside the grid or is marked.
    pub open spec fn all_settled(&self, visited: Seq<bool>, c: Cell) -> bool {
        forall|d: int| 0 <= d < 4 ==> #[trigger] self.settled(visited, step(c, d))
    }

    /// A frame `(x, y, k)`: the cell is in the grid and marked, and its first
    /// `k` directions in its ordering lead nowhere new.
    pub open spec fn frame_ok(
        &self,
        visited: Seq<bool>,
        orders: Seq<Vec<u8>>,
        f: (usize, usize, usize),
    ) -> bool {
        let c = (f.0 as int, f.1 as int);
        &&& self.in_grid(c)
        &&& f.2 <= 4
        &&& self.seen(visited, c)
        &&& forall|j: int|
            0 <= j < f.2 ==> #[trigger] self.settled(
                visited,
                step(c, orders[self.index_of(c)]@[j] as int),
            )
    }

    /// The walls that are down all lie between two marked cells.
    pub open spec fn open_walls_seen(&self, visited: Seq<bool>) -> bool {
        &&& forall|x: int, y: int|
            0 <= y < self.height && 0 <= x <= self.width && !#[trigger] self.vwall(x, y) ==> 1
                <= x < self.width && self.seen(visited, (x - 1, y)) && self.seen(visited, (x, y))
        &&& forall|x: int, y: int|
            0 <= y <= self.height && 0 <= x < self.width && !#[trigger] self.hwall(x, y) ==> 1
                <= y < self.height && self.seen(visited, (x, y - 1)) && self.seen(visited, (x, y))
    }

    /// Every cell of the grid is reachable from the top-left cell.
    pub open spec fn connected(&self) -> bool {
        forall|c: Cell| self.in_grid(c) ==> #[trigger] self.reachable(c)
    }

    /// The walls that are down form a spanning tree of the grid graph: the
    /// outer boundary stands, every cell is reachable from the top-left one,
    /// and exactly `width * height - 1` walls are down.
    pub open spec fn is_spanning_tree(&self) -> bool {
        &&& self.boundary_closed()
        &&& self.connected()
        &&& self.removed_walls() == self.width * self.height - 1
    }
}

/// Where the step from `(x, y)` in direction `dir` lands, if inside the grid.
pub(crate) fn neighbor(width: usize, height: usize, x: usize, y: usize, dir: u8) -> (r: Option<(usize, usize)>)
    requires
        x < width,
        y < height,
        dir < 4,
    ensures
        match r {
            Some(n) => n.0 == step((x as int, y as int), dir as int).0 && n.1 == step(
                (x as int, y as int),
                dir as int,
            ).1 && n.0 < width && n.1 < height,
            None => {
                let s = step((x as int, y as int), dir as int);
                !(0 <= s.0 < width && 0 <= s.1 < height)
            },
        },
{
    if dir == 0 {
        if x + 1 < width {
            Some((x + 1, y))
        } else {
            None
        }
    } else if dir == 1 {
        if x > 0 {
            Some((x - 1, y))
        } else {
            None
        }
    } else if dir == 2 {
        if y + 1 < height {
            Some((x, y + 1))
        } else {
            None
        }
    } else {
        if y > 0 {
            Some((x, y - 1))
        } else {
            None
        }
    }
}


impl Maze {
    /// The first direction at position `d` or later in `ord` that leads from
    /// `(x, y)` to an unmarked cell of the grid, or 4 if there is none.
    fn first_fresh_dir(&self, visited: &Vec<bool>, ord: &Vec<u8>, x: usize, y: usize, d: usize) -> (r:
        usize)
        requires
            self.wf(),
            visited@.len() == self.width * self.height,
            x < self.width,
            y < self.height,
            d <= 4,
            ord@.len() == 4,
            forall|j: int| 0 <= j < 4 ==> #[trigger] ord@[j] < 4,
        ensures
            d <= r <= 4,
            forall|k: int|
                d <= k < r ==> #[trigger] self.settled(
                    visited@,
                    step((x as int, y as int), ord@[k] as int),
                ),
            r < 4 ==> !self.settled(visited@, step((x as int, y as int), ord@[r as int] as int)),
            r == first_fresh(
                self.width as int,
                self.height as int,
                visited@,
                ord@,
                (x as int, y as int),
                d as int,
            ),
    {
        let mut i: usize = d;
        while i < 4
            invariant
                self.wf(),
                visited@.len() == self.width * self.height,
                x < self.width,
                y < self.height,
                d <= i <= 4,
                ord@.len() == 4,
                forall|j: int| 0 <= j < 4 ==> #[trigger] ord@[j] < 4,
                forall|k: int|
                    d <= k < i ==> #[trigger] self.settled(
                        visited@,
                        step((x as int, y as int), ord@[k] as int),
                    ),
            decreases 4 - i,
        {
            let dir = ord[i];
            match neighbor(self.width, self.height, x, y, dir) {
                Some(n) => {
                    proof {
                        lemma_index_in_range(self, (n.0 as int, n.1 as int));
                    }
                    if !visited[n.1 * self.width + n.0] {
                        proof {
                            lemma_first_fresh(self, visited@, ord@, (x as int, y as int), d as int, i as int);
                        }
                        return i;
                    }
                },
                None => {},
            }
            i = i + 1;
        }
        proof {
            lemma_first_fresh(self, visited@, ord@, (x as int, y as int), d as int, 4);
        }
        i
    }
}

/// The position that the scan finds is the one that `first_fresh` names.
proof fn lemma_first_fresh(m: &Maze, visited: Seq<bool>, ord: Seq<u8>, c: Cell, d: int, r: int)
    requires
        d <= r <= 4,
        forall|k: int| d <= k < r ==> #[trigger] m.settled(visited, step(c, ord[k] as int)),
        r < 4 ==> !m.settled(visited, step(c, ord[r] as int)),
    ensures
        r == first_fresh(m.width as int, m.height as int, visited, ord, c, d),
    decreases r - d,
{
    if d < r {
        assert(m.settled(visited, step(c, ord[d] as int)));
        lemma_first_fresh(m, visited, ord, c, d + 1, r);
    }
}

/// Marks closed under neighbours, starting from the top-left cell, cover the grid.
proof fn lemma_all_seen(m: &Maze, visited: Seq<bool>, x: int, y: int)
    requires
        m.seen(visited, (0, 0)),
        forall|c: Cell| m.in_grid(c) && m.seen(visited, c) ==> #[trigger] m.all_settled(visited, c),
        m.in_grid((x, y)),
    ensures
        m.seen(visited, (x, y)),
    decreases x + y,
{
    if x > 0 {
        lemma_all_seen(m, visited, x - 1, y);
        assert(m.all_settled(visited, (x - 1, y)));
        assert(m.settled(visited, step((x - 1, y), 0)));
    } else if y > 0 {
        lemma_all_seen(m, visited, x, y - 1);
        assert(m.all_settled(visited, (x, y - 1)));
        assert(m.settled(visited, step((x, y - 1), 2)));
    }
}

impl Maze {
    /// The wall between `c` and its neighbour in direction `d`.
    pub open spec fn wall_toward(&self, c: Cell, d: int) -> bool {
        if d == 0 {
            self.vwall(c.0 + 1, c.1)
        } else if d == 1 {
            self.vwall(c.0, c.1)
        } else if d == 2 {
            self.hwall(c.0, c.1 + 1)
        } else {
            self.hwall(c.0, c.1)
        }
    }

    /// Takes down the wall between `(x, y)` and its neighbour in direction `dir`.
    fn knock_down(&mut self, x: usize, y: usize, dir: u8)
        requires
            old(self).wf(),
            old(self).boundary_closed(),
            old(self).in_grid((x as int, y as int)),
            old(self).in_grid(step((x as int, y as int), dir as int)),
            dir < 4,
            old(self).wall_toward((x as int, y as int), dir as int),
        ensures
            final(self).wf(),
            final(self).boundary_closed(),
            opens_more(old(self), final(self)),
            final(self).open_step((x as int, y as int), step((x as int, y as int), dir as int)),
            final(self).removed_walls() == old(self).removed_walls() + 1,
            (final(self).vert_view(), final(self).hor_view()) == knock(
                old(self).vert_view(),
                old(self).hor_view(),
                (x as int, y as int),
                dir as int,
            ),
            forall|i: int, j: int|
                0 <= j < old(self).height && 0 <= i <= old(self).width && !#[trigger] final(self).vwall(i, j) ==> !old(self).vwall(i, j) || (j == y && ((dir == 0 && i == x + 1)
                    || (dir == 1 && i == x))),
            forall|i: int, j: int|
                0 <= j <= old(self).height && 0 <= i < old(self).width && !#[trigger] final(self).hwall(i, j) ==> !old(self).hwall(i, j) || (i == x && ((dir == 2 && j == y + 1)
                    || (dir == 3 && j == y))),
    {
        if dir == 0 {
            self.remove_vertical_wall(x + 1, y);
            assert(self.hor_view() =~~= old(self).hor_view());
        } else if dir == 1 {
            self.remove_vertical_wall(x, y);
            assert(self.hor_view() =~~= old(self).hor_view());
        } else if dir == 2 {
            self.remove_horizontal_wall(x, y + 1);
            assert(self.vert_view() =~~= old(self).vert_view());
        } else {
            self.remove_horizontal_wall(x, y);
            assert(self.vert_view() =~~= old(self).vert_view());
        }
        proof {
            let w = self.width as int;
            let h = self.height as int;
            assert(dir == 0 ==> x + 1 < w);
            assert(dir == 1 ==> x >= 1);
            assert(dir == 2 ==> y + 1 < h);
            assert(dir == 3 ==> y >= 1);
            assert forall|j: int| 0 <= j < h implies #[trigger] self.vwall(0, j) by {
                assert(old(self).vwall(0, j));
            }
            assert forall|j: int| 0 <= j < h implies #[trigger] self.vwall(w, j) by {
                assert(old(self).vwall(w, j));
            }
            assert forall|i: int| 0 <= i < w implies #[trigger] self.hwall(i, 0) by {
                assert(old(self).hwall(i, 0));
            }
            assert forall|i: int| 0 <= i < w implies #[trigger] self.hwall(i, h) by {
                assert(old(self).hwall(i, h));
            }
        }
    }
}

/// Some frame of `s` is at cell `c`.
pub open spec fn on_stack(s: Seq<(usize, usize, usize)>, c: Cell) -> bool {
    exists|k: int| 0 <= k < s.len() && #[trigger] s[k].0 == c.0 && s[k].1 == c.1
}

/// Marking `n` marks `n` and leaves every other cell as it was.
proof fn lemma_mark(m: &Maze, vis: Seq<bool>, n: Cell)
    requires
        m.wf(),
        vis.len() == m.width * m.height,
        m.in_grid(n),
    ensures
        forall|c: Cell|
            m.in_grid(c) ==> (#[trigger] m.seen(vis.update(m.index_of(n), true), c) == (m.seen(
                vis,
                c,
            ) || c == n)),
{
    lemma_index_in_range(m, n);
    assert forall|c: Cell| m.in_grid(c) implies (#[trigger] m.seen(
        vis.update(m.index_of(n), true),
        c,
    ) == (m.seen(vis, c) || c == n)) by {
        lemma_index_in_range(m, c);
        if c != n {
            lemma_index_injective(m, c, n);
        }
    }
}

impl Maze {
    /// Carves the grid into a maze by a depth-first walk from the top-left
    /// cell. `orders[y * width + x]` is the order in which cell `(x, y)` tries
    /// its four directions. The walk keeps a stack of frames `(x, y, k)`: it
    /// pops the top frame, scans the cell's directions from position `k`, and
    /// at the first one that leads to an unvisited cell of the grid takes
    /// down the wall between them, pushes `(x, y, position + 1)` and then the
    /// new cell with 0. A frame with no such direction left is dropped.
    pub fn carve(&mut self, orders: &Vec<Vec<u8>>)
        requires
            old(self).wf(),
            old(self).all_walls(),
            orders@.len() == old(self).width * old(self).height,
            forall|i: int| 0 <= i < orders@.len() ==> is_dir_order(#[trigger] orders@[i]@),
        ensures
            final(self).wf(),
            final(self).width == old(self).width,
            final(self).height == old(self).height,
            final(self).is_spanning_tree(),
            final(self).vert_view() == carved(
                old(self).width as int,
                old(self).height as int,
                orders_view(orders@),
            ).vert,
            final(self).hor_view() == carved(
                old(self).width as int,
                old(self).height as int,
                orders_view(orders@),
            ).hor,
    {
        let w = self.width;
        let h = self.height;
        let total = w * h;
        let ghost ov = orders_view(orders@);
        let ghost mut iter: nat = 0;
        let mut visited: Vec<bool> = Vec::new();
        let mut k: usize = 0;
        while k < total
            invariant
                k <= total,
                visited@.len() == k,
                forall|i: int| 0 <= i < k ==> !#[trigger] visited@[i],
            decreases total - k,
        {
            visited.push(false);
            k = k + 1;
        }
        proof {
            lemma_none_removed(self);
            assert(w * h >= 1) by (nonlinear_arith)
                requires
                    w >= 1,
                    h >= 1,
            ;
            assert(0 * (self.width as int) == 0) by (nonlinear_arith);
            assert(self.index_of((0, 0)) == 0);
            lemma_count_false_all(visited@);
            lemma_count_false_set(visited@, 0);
            lemma_mark(self, visited@, (0, 0));
        }
        visited.set(0, true);
        let ghost mut paths: Map<Cell, Seq<Cell>> = map![(0int, 0int) => seq![(0int, 0int)]];
        proof {
            assert forall|c: Cell| self.in_grid(c) && self.seen(visited@, c) implies paths.dom().contains(c)
                && self.walk_between(paths[c], (0, 0), c) by {
                lemma_index_in_range(self, c);
                assert(c == (0int, 0int));
            }
            assert forall|c: Cell| self.in_grid(c) && self.seen(visited@, c) implies on_stack(
                seq![(0usize, 0usize, 0usize)],
                c,
            ) by {
                assert(seq![(0usize, 0usize, 0usize)][0].0 == c.0);
            }
        }
        let mut stack: Vec<(usize, usize, usize)> = Vec::new();
        stack.push((0, 0, 0));
        assert(stack@ =~= seq![(0usize, 0usize, 0usize)]);
        proof {
            let st = walk_start(w as int, h as int);
            assert forall|y: int| 0 <= y < h implies #[trigger] self.vert_view()[y] =~= st.vert[y] by {
                assert forall|x: int| 0 <= x < w + 1 implies self.vert_view()[y][x] == st.vert[y][x] by {
                    assert(self.vwall(x, y));
                }
            }
            assert forall|y: int| 0 <= y < h + 1 implies #[trigger] self.hor_view()[y] =~= st.hor[y] by {
                assert forall|x: int| 0 <= x < w implies self.hor_view()[y][x] == st.hor[y][x] by {
                    assert(self.hwall(x, y));
                }
            }
            assert(self.vert_view() =~= st.vert);
            assert(self.hor_view() =~= st.hor);
            assert(visited@ =~= st.visited);
            assert(walk_run(w as int, h as int, ov, st, 0) == st);
        }
        while stack.len() > 0
            invariant
                self.wf(),
                self.width == w,
                self.height == h,
                total == w * h,
                self.boundary_closed(),
                visited@.len() == total,
                orders@.len() == total,
                forall|i: int| 0 <= i < orders@.len() ==> is_dir_order(#[trigger] orders@[i]@),
                self.seen(visited@, (0, 0)),
                self.open_walls_seen(visited@),
                self.removed_walls() + count_false(visited@) + 1 == total,
                ov == orders_view(orders@),
                (WalkState { vert: self.vert_view(), hor: self.hor_view(), visited: visited@, stack: stack@ })
                    == walk_run(w as int, h as int, ov, walk_start(w as int, h as int), iter),
                iter + stack@.len() + 1 == 2 * (total - count_false(visited@)),
                forall|c: Cell|
                    self.in_grid(c) && #[trigger] self.seen(visited@, c) ==> paths.dom().contains(c)
                        && self.walk_between(paths[c], (0, 0), c),
                forall|i: int|
                    0 <= i < stack@.len() ==> self.frame_ok(visited@, orders@, #[trigger] stack@[i]),
                forall|c: Cell|
                    self.in_grid(c) && #[trigger] self.seen(visited@, c) ==> self.all_settled(
                        visited@,
                        c,
                    ) || on_stack(stack@, c),
            decreases count_false(visited@), stack@.len(),
        {
            let ghost s0 = stack@;
            let ghost v0 = visited@;
            let ghost ws0 = WalkState { vert: self.vert_view(), hor: self.hor_view(), visited: visited@, stack: stack@ };
            let f = stack.pop().unwrap();
            let x = f.0;
            let y = f.1;
            let d = f.2;
            let ghost c: Cell = (x as int, y as int);
            assert(self.frame_ok(v0, orders@, s0[s0.len() - 1]));
            proof {
                lemma_index_in_range(self, c);
            }
            let ord = &orders[y * w + x];
            assert(is_dir_order(ord@));
            let j = self.first_fresh_dir(&visited, ord, x, y, d);
            assert(ov[y * w + x] == ord@);
            if j < 4 {
                let dir = ord[j];
                let nb = neighbor(w, h, x, y, dir);
                let n = nb.unwrap();
                let ghost nc: Cell = (n.0 as int, n.1 as int);
                let ghost m0 = *self;
                proof {
                    assert(!self.seen(v0, nc));
                    if !self.wall_toward(c, dir as int) {
                        if dir == 0 {
                            assert(!self.vwall(x + 1, y as int));
                        } else if dir == 1 {
                            assert(!self.vwall(x as int, y as int));
                        } else if dir == 2 {
                            assert(!self.hwall(x as int, y + 1));
                        } else {
                            assert(!self.hwall(x as int, y as int));
                        }
                    }
                }
                self.knock_down(x, y, dir);
                stack.push((x, y, j + 1));
                proof {
                    lemma_index_in_range(self, nc);
                    lemma_mark(self, v0, nc);
                    lemma_count_false_set(v0, self.index_of(nc));
                }
                visited.set(n.1 * w + n.0, true);
                stack.push((n.0, n.1, 0));
                proof {
                    let ws1 = WalkState { vert: self.vert_view(), hor: self.hor_view(), visited: visited@, stack: stack@ };
                    assert(stack@ =~= s0.drop_last().push((x, y, (j + 1) as usize)).push((n.0, n.1, 0usize)));
                    assert(ws1 == walk_step(w as int, h as int, ov, ws0));
                    lemma_run_succ(w as int, h as int, ov, walk_start(w as int, h as int), iter);
                    iter = iter + 1;
                    let v1 = visited@;
                    let s1 = stack@;
                    assert(s1.len() == s0.len() + 1);
                    // the walls that are down stay between marked cells
                    assert forall|xx: int, yy: int|
                        0 <= yy < h && 0 <= xx <= w && !#[trigger] self.vwall(xx, yy) implies 1 <= xx
                        < w && self.seen(v1, (xx - 1, yy)) && self.seen(v1, (xx, yy)) by {
                        if !m0.vwall(xx, yy) {
                            assert(m0.seen(v0, (xx - 1, yy)));
                        }
                    }
                    assert forall|xx: int, yy: int|
                        0 <= yy <= h && 0 <= xx < w && !#[trigger] self.hwall(xx, yy) implies 1 <= yy
                        < h && self.seen(v1, (xx, yy - 1)) && self.seen(v1, (xx, yy)) by {
                        if !m0.hwall(xx, yy) {
                            assert(m0.seen(v0, (xx, yy - 1)));
                        }
                    }
                    // walks to marked cells
                    lemma_walk_mono(&m0, self, paths[c]);
                    lemma_walk_push(self, paths[c], nc);
                    paths = paths.insert(nc, paths[c].push(nc));
                    assert forall|cc: Cell|
                        self.in_grid(cc) && #[trigger] self.seen(v1, cc) implies paths.dom().contains(cc)
                        && self.walk_between(paths[cc], (0, 0), cc) by {
                        if cc != nc {
                            assert(m0.seen(v0, cc));
                            lemma_walk_mono(&m0, self, paths[cc]);
                        }
                    }
                    // frames
                    assert forall|i: int| 0 <= i < s1.len() implies self.frame_ok(
                        v1,
                        orders@,
                        #[trigger] s1[i],
                    ) by {
                        if i < s0.len() - 1 {
                            assert(s1[i] == s0[i]);
                            assert(m0.frame_ok(v0, orders@, s0[i]));
                            let g = s0[i];
                            let gc = (g.0 as int, g.1 as int);
                            assert forall|jj: int| 0 <= jj < g.2 implies #[trigger] self.settled(
                                v1,
                                step(gc, orders@[self.index_of(gc)]@[jj] as int),
                            ) by {
                                assert(m0.settled(v0, step(gc, orders@[m0.index_of(gc)]@[jj] as int)));
                            }
                        } else if i == s0.len() - 1 {
                            assert(s1[i] == (x, y, (j + 1) as usize));
                            assert(step(c, ord@[j as int] as int) == nc);
                            assert(self.seen(v1, nc));
                            assert(self.seen(v1, c));
                            assert forall|jj: int| 0 <= jj < j + 1 implies #[trigger] self.settled(
                                v1,
                                step(c, ord@[jj] as int),
                            ) by {
                                if jj < d {
                                    assert(m0.settled(v0, step(c, ord@[jj] as int)));
                                } else if jj < j {
                                    assert(m0.settled(v0, step(c, ord@[jj] as int)));
                                }
                            }
                        } else {
                            assert(s1[i] == (n.0, n.1, 0usize));
                            assert(self.seen(v1, nc));
                        }
                    }
                    // every marked cell is finished or on the stack
                    assert forall|cc: Cell|
                        self.in_grid(cc) && #[trigger] self.seen(v1, cc) implies self.all_settled(
                        v1,
                        cc,
                    ) || on_stack(s1, cc) by {
                        if cc == nc {
                            assert(s1[s1.len() - 1].0 == cc.0);
                        } else if cc == c {
                            assert(s1[s1.len() - 2].0 == cc.0);
                        } else {
                            assert(m0.seen(v0, cc));
                            if on_stack(s0, cc) {
                                let kk = choose|kk: int|
                                    0 <= kk < s0.len() && #[trigger] s0[kk].0 == cc.0 && s0[kk].1
                                        == cc.1;
                                assert(s1[kk] == s0[kk]);
                            } else {
                                assert(m0.all_settled(v0, cc));
                                assert forall|dd: int| 0 <= dd < 4 implies #[trigger] self.settled(
                                    v1,
                                    step(cc, dd),
                                ) by {
                                    assert(m0.settled(v0, step(cc, dd)));
                                }
                            }
                        }
                    }
                }
            } else {
                proof {
                    let ws1 = WalkState { vert: self.vert_view(), hor: self.hor_view(), visited: visited@, stack: stack@ };
                    assert(stack@ =~= s0.drop_last());
                    assert(ws1 == walk_step(w as int, h as int, ov, ws0));
                    lemma_run_succ(w as int, h as int, ov, walk_start(w as int, h as int), iter);
                    iter = iter + 1;
                    let s1 = stack@;
                    assert forall|dd: int| 0 <= dd < 4 implies #[trigger] self.settled(
                        v0,
                        step(c, dd),
                    ) by {
                        assert(ord@.contains(dd as u8));
                        let jj = choose|jj: int| 0 <= jj < ord@.len() && ord@[jj] == dd as u8;
                        if jj < d {
                            assert(self.settled(v0, step(c, ord@[jj] as int)));
                        } else {
                            assert(self.settled(v0, step(c, ord@[jj] as int)));
                        }
                    }
                    assert forall|i: int| 0 <= i < s1.len() implies self.frame_ok(
                        v0,
                        orders@,
                        #[trigger] s1[i],
                    ) by {
                        assert(s1[i] == s0[i]);
                    }
                    assert forall|cc: Cell|
                        self.in_grid(cc) && #[trigger] self.seen(v0, cc) implies self.all_settled(
                        v0,
                        cc,
                    ) || on_stack(s1, cc) by {
                        if cc != c && on_stack(s0, cc) {
                            let kk = choose|kk: int|
                                0 <= kk < s0.len() && #[trigger] s0[kk].0 == cc.0 && s0[kk].1
                                    == cc.1;
                            assert(s1[kk] == s0[kk]);
                        }
                    }
                }
            }
        }
        proof {
            assert forall|c: Cell| self.in_grid(c) && self.seen(visited@, c) implies #[trigger] self.all_settled(
                visited@,
                c,
            ) by {
                assert(!on_stack(stack@, c));
            }
            assert forall|i: int| 0 <= i < visited@.len() implies #[trigger] visited@[i] by {
                lemma_cell_of_index(self, i);
                lemma_all_seen(self, visited@, self.cell_of(i).0, self.cell_of(i).1);
            }
            lemma_count_false_none(visited@);
            lemma_run_stopped(w as int, h as int, ov, walk_start(w as int, h as int), iter, 1);
            assert(2 * (w * h) == 2 * w * h) by (nonlinear_arith);
            assert(iter + 1 == 2 * w * h);
            assert forall|c: Cell| self.in_grid(c) implies #[trigger] self.reachable(c) by {
                lemma_all_seen(self, visited@, c.0, c.1);
                assert(self.walk_between(paths[c], (0, 0), c));
            }
        }
    }
}

/// Carving depends on the grid size and the direction orderings alone: two
/// mazes of one size carved with the same orderings have identical registries.
pub proof fn lemma_carve_deterministic(a: &Maze, b: &Maze, orders: Seq<Seq<u8>>)
    requires
        a.width == b.width,
        a.height == b.height,
        a.vert_view() == carved(a.width as int, a.height as int, orders).vert,
        a.hor_view() == carved(a.width as int, a.height as int, orders).hor,
        b.vert_view() == carved(b.width as int, b.height as int, orders).vert,
        b.hor_view() == carved(b.width as int, b.height as int, orders).hor,
    ensures
        a.vert_view() == b.vert_view(),
        a.hor_view() == b.hor_view(),
{
}

} // verus!
