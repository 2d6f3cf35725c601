//! A* search for a shortest walk from the top-left cell to the bottom-right one.
use vstd::prelude::*;
use crate::carve::{neighbor, step};
use crate::grid::{Cell, Maze};
use crate::walks::{lemma_cell_of_index, lemma_index_in_range, lemma_index_injective};

verus! {

/// Distance value of a cell that the search has not reached.
pub const UNREACHED: usize = usize::MAX;

/// The cells of a path of coordinate pairs, as integer pairs.
pub open spec fn cells_of(p: Seq<(usize, usize)>) -> Seq<Cell> {
    p.map_values(|q: (usize, usize)| (q.0 as int, q.1 as int))
}

/// Sum of the entries.
pub open spec fn sum_of(s: Seq<usize>) -> int
    decreases s.len(),
{
    if s.len() == 0 {
        0
    } else {
        sum_of(s.drop_last()) + s.last()
    }
}

proof fn lemma_sum_update(s: Seq<usize>, i: int, v: usize)
    requires
        0 <= i < s.len(),
    ensures
        sum_of(s.update(i, v)) == sum_of(s) - s[i] + v,
    decreases s.len(),
{
    let t = s.update(i, v);
    if i == s.len() - 1 {
        assert(t.drop_last() =~= s.drop_last());
    } else {
        lemma_sum_update(s.drop_last(), i, v);
        assert(t.drop_last() =~= s.drop_last().update(i, v));
    }
}

proof fn lemma_sum_nonneg(s: Seq<usize>)
    ensures
        sum_of(s) >= 0,
    decreases s.len(),
{
    if s.len() > 0 {
        lemma_sum_nonneg(s.drop_last());
    }
}

/// A sequence without repeats of integers in `[0, n)` has at most `n` entries.
proof fn lemma_distinct_bound(s: Seq<int>, n: int)
    requires
        n >= 0,
        s.no_duplicates(),
        forall|k: int| 0 <= k < s.len() ==> 0 <= #[trigger] s[k] < n,
    ensures
        s.len() <= n,
{
    s.unique_seq_to_set();
    vstd::set_lib::lemma_int_range(0, n);
    assert(s.to_set().subset_of(vstd::set_lib::set_int_range(0, n)));
    vstd::set_lib::lemma_len_subset(s.to_set(), vstd::set_lib::set_int_range(0, n));
}

impl Maze {
    /// `r` is a shortest walk from the top-left cell to the bottom-right one
    /// when such a walk exists, and the top-left cell alone otherwise.
    pub open spec fn solves(&self, r: Seq<(usize, usize)>) -> bool {
        &&& r.len() >= 1
        &&& r[0] == (0usize, 0usize)
        &&& self.reachable(self.goal()) ==> self.walk_between(cells_of(r), (0, 0), self.goal())
        &&& !self.reachable(self.goal()) ==> r == seq![(0usize, 0usize)]
        &&& forall|p: Seq<Cell>| #[trigger] self.walk_between(p, (0, 0), self.goal()) ==> r.len() <= p.len()
    }

    /// Manhattan distance from `c` to the bottom-right cell.
    pub open spec fn heuristic(&self, c: Cell) -> int {
        (self.width - 1 - c.0) + (self.height - 1 - c.1)
    }

    /// Whether the wall between `(x, y)` and its neighbour in direction `dir` stands.
    fn has_wall_toward(&self, x: usize, y: usize, dir: u8) -> (r: bool)
        requires
            self.wf(),
            self.in_grid((x as int, y as int)),
            self.in_grid(step((x as int, y as int), dir as int)),
            dir < 4,
        ensures
            r == self.wall_toward((x as int, y as int), dir as int),
    {
        if dir == 0 {
            self.vert_walls[y][x + 1]
        } else if dir == 1 {
            self.vert_walls[y][x]
        } else if dir == 2 {
            self.hor_walls[y + 1][x]
        } else {
            self.hor_walls[y][x]
        }
    }

    /// Estimated total cost of a cell index: its distance so far plus the heuristic.
    fn priority(&self, dist: usize, i: usize) -> (r: u128)
        requires
            self.wf(),
            i < self.width * self.height,
        ensures
            r == dist + self.heuristic(self.cell_of(i as int)),
    {
        proof {
            lemma_cell_of_index(self, i as int);
        }
        let x = i % self.width;
        let y = i / self.width;
        dist as u128 + ((self.width - 1 - x) as u128 + (self.height - 1 - y) as u128)
    }

    /// Position in `frontier` of an entry of least priority.
    fn best_in_frontier(&self, dist: &Vec<usize>, frontier: &Vec<usize>) -> (k: usize)
        requires
            self.wf(),
            frontier@.len() > 0,
            dist@.len() == self.width * self.height,
            forall|j: int| 0 <= j < frontier@.len() ==> #[trigger] frontier@[j] < self.width * self.height,
        ensures
            k < frontier@.len(),
            forall|j: int|
                0 <= j < frontier@.len() ==> dist@[frontier@[k as int] as int] + self.heuristic(
                    self.cell_of(frontier@[k as int] as int),
                ) <= dist@[#[trigger] frontier@[j] as int] + self.heuristic(
                    self.cell_of(frontier@[j] as int),
                ),
    {
        let mut best: usize = 0;
        let mut best_key = self.priority(dist[frontier[0]], frontier[0]);
        let mut j: usize = 1;
        while j < frontier.len()
            invariant
                self.wf(),
                dist@.len() == self.width * self.height,
                forall|t: int| 0 <= t < frontier@.len() ==> #[trigger] frontier@[t] < self.width * self.height,
                1 <= j <= frontier@.len(),
                best < j,
                best_key == dist@[frontier@[best as int] as int] + self.heuristic(
                    self.cell_of(frontier@[best as int] as int),
                ),
                forall|t: int|
                    0 <= t < j ==> best_key <= dist@[#[trigger] frontier@[t] as int] + self.heuristic(
                        self.cell_of(frontier@[t] as int),
                    ),
            decreases frontier@.len() - j,
        {
            let key = self.priority(dist[frontier[j]], frontier[j]);
            if key < best_key {
                best = j;
                best_key = key;
            }
            j = j + 1;
        }
        best
    }
}

/// `b` is the neighbour of `a` in direction `d` and no wall stands between them.
proof fn lemma_open_toward(m: &Maze, a: Cell, d: int)
    requires
        m.in_grid(a),
        m.in_grid(step(a, d)),
        0 <= d < 4,
        !m.wall_toward(a, d),
    ensures
        m.open_step(a, step(a, d)),
{
}

/// An open step from `a` goes in some direction whose wall is down.
proof fn lemma_step_has_dir(m: &Maze, a: Cell, b: Cell) -> (d: int)
    requires
        m.open_step(a, b),
    ensures
        0 <= d < 4,
        b == step(a, d),
        !m.wall_toward(a, d),
{
    if b.0 == a.0 + 1 && b.1 == a.1 && !m.vwall(b.0, a.1) {
        0
    } else if b.0 == a.0 - 1 && b.1 == a.1 && !m.vwall(a.0, a.1) {
        1
    } else if b.1 == a.1 + 1 && b.0 == a.0 && !m.hwall(a.0, b.1) {
        2
    } else {
        3
    }
}

/// A cell of the grid is the cell of its own index.
proof fn lemma_cell_round_trip(m: &Maze, c: Cell)
    requires
        m.wf(),
        m.in_grid(c),
    ensures
        0 <= m.index_of(c) < m.width * m.height,
        m.cell_of(m.index_of(c)) == c,
{
    lemma_index_in_range(m, c);
    lemma_cell_of_index(m, m.index_of(c));
    if m.cell_of(m.index_of(c)) != c {
        lemma_index_injective(m, m.cell_of(m.index_of(c)), c);
    }
}

impl Maze {
    /// The state of the search is consistent: the start has distance 0 and
    /// no predecessor; every other reached cell has a predecessor that is an
    /// open neighbour with a smaller distance; every reached cell has a trail,
    /// a walk from the start without repeats along which distances are at
    /// most the position, of length its distance plus one.
    spec fn search_ok(
        &self,
        dist: Seq<usize>,
        came: Seq<Option<usize>>,
        trails: Map<int, Seq<int>>,
    ) -> bool {
        let total = self.width * self.height;
        &&& dist.len() == total
        &&& came.len() == total
        &&& dist[0] == 0
        &&& came[0] is None
        &&& forall|i: int|
            0 < i < total && #[trigger] dist[i] < UNREACHED ==> came[i] is Some && (came[i]->0)
                < total && dist[came[i]->0 as int] < dist[i] && self.open_step(
                self.cell_of(came[i]->0 as int),
                self.cell_of(i),
            )
        &&& forall|i: int|
            0 <= i < total && #[trigger] dist[i] < UNREACHED ==> trails.dom().contains(i)
                && self.trail_ok(dist, trails[i], i)
    }

    spec fn trail_ok(&self, dist: Seq<usize>, s: Seq<int>, i: int) -> bool {
        &&& s.no_duplicates()
        &&& s.len() == dist[i] + 1
        &&& s[0] == 0
        &&& s.last() == i
        &&& forall|k: int|
            0 <= k < s.len() ==> 0 <= #[trigger] s[k] < self.width * self.height && dist[s[k]]
                <= k
    }

    /// Every open neighbour of cell index `i` has been reached, at a
    /// distance at most one more than that of `i`.
    spec fn expanded(&self, dist: Seq<usize>, i: int) -> bool {
        forall|d: int|
            0 <= d < 4 && self.in_grid(step(self.cell_of(i), d)) && !self.wall_toward(
                self.cell_of(i),
                d,
            ) ==> #[trigger] dist[self.index_of(step(self.cell_of(i), d))] < UNREACHED
                && dist[self.index_of(step(self.cell_of(i), d))] <= dist[i] + 1
    }

    spec fn closed(&self, dist: Seq<usize>, frontier: Seq<usize>, i: int) -> bool {
        dist[i] < UNREACHED ==> frontier.contains(i as usize) || self.expanded(dist, i)
    }

    /// Shortest walk by A* from the top-left cell `(0, 0)` to the
    /// bottom-right cell `(width - 1, height - 1)`, as the sequence of its
    /// cells. When the bottom-right cell cannot be reached, the result is the
    /// single cell `(0, 0)`, which on a grid of more than one cell does not
    /// end at the goal.
    pub fn solve(&self) -> (r: Vec<(usize, usize)>)
        requires
            self.wf(),
        ensures
            self.solves(r@),
    {
        let w = self.width;
        let h = self.height;
        let total = w * h;
        proof {
            assert(w * h >= 1) by (nonlinear_arith)
                requires
                    w >= 1,
                    h >= 1,
            ;
            assert(0 * (w as int) == 0) by (nonlinear_arith);
            assert((h - 1) * w + (w - 1) == w * h - 1) by (nonlinear_arith);
            lemma_cell_round_trip(self, (0, 0));
            lemma_cell_round_trip(self, self.goal());
        }
        let goal = total - 1;
        let mut dist: Vec<usize> = Vec::new();
        let mut came: Vec<Option<usize>> = Vec::new();
        let mut k: usize = 0;
        while k < total
            invariant
                1 <= total,
                k <= total,
                dist@.len() == k,
                came@.len() == k,
                forall|i: int| 0 <= i < k ==> (#[trigger] dist@[i]) == UNREACHED,
                forall|i: int| 0 <= i < k ==> (#[trigger] came@[i]) is None,
            decreases total - k,
        {
            dist.push(UNREACHED);
            came.push(None);
            k = k + 1;
        }
        assert(dist@[0] == UNREACHED && came@[0] is None);
        dist.set(0, 0);
        let ghost mut trails: Map<int, Seq<int>> = map![0int => seq![0int]];
        let mut frontier: Vec<usize> = Vec::new();
        frontier.push(0);
        proof {
            assert(seq![0int].no_duplicates());
            assert(self.trail_ok(dist@, trails[0], 0));
            assert forall|i: int| 0 <= i < total implies self.closed(dist@, frontier@, i) by {
                if i == 0 {
                    assert(frontier@[0] == 0);
                }
            }
        }
        proof {
            let d = dist@;
            assert(d[0] == 0);
            assert forall|i: int| 0 < i < total implies !(#[trigger] d[i] < UNREACHED) by {
                assert(d[i] == UNREACHED);
            }
            assert forall|i: int| 0 <= i < total && #[trigger] d[i] < UNREACHED implies trails.dom().contains(i)
                && self.trail_ok(d, trails[i], i) by {
                if i != 0 {
                    assert(d[i] == UNREACHED);
                }
            }
            assert(self.search_ok(dist@, came@, trails));
        }
        let mut found = false;
        while frontier.len() > 0
            invariant_except_break
                !found,
                forall|i: int| 0 <= i < total ==> #[trigger] self.closed(dist@, frontier@, i),
            invariant
                self.wf(),
                w == self.width,
                h == self.height,
                total == w * h,
                goal == total - 1,
                self.index_of(self.goal()) == goal,
                self.cell_of(goal as int) == self.goal(),
                self.search_ok(dist@, came@, trails),
                forall|j: int| 0 <= j < frontier@.len() ==> #[trigger] frontier@[j] < total && dist@[frontier@[j] as int] < UNREACHED,
            ensures
                self.search_ok(dist@, came@, trails),
                found ==> dist@[goal as int] < UNREACHED,
                found ==> forall|p: Seq<Cell>| #[trigger] self.walk_between(p, (0, 0), self.goal()) ==> dist@[goal as int] + 1 <= p.len(),
                !found ==> forall|i: int| 0 <= i < total ==> #[trigger] self.closed(dist@, frontier@, i),
                !found ==> frontier@.len() == 0,
            decreases 2 * sum_of(dist@) + frontier@.len(),
        {
            let ghost m0 = 2 * sum_of(dist@) + frontier@.len();
            let ghost f0 = frontier@;
            let pos = self.best_in_frontier(&dist, &frontier);
            let cur = frontier.remove(pos);
            if cur == goal {
                proof {
                    assert forall|p: Seq<Cell>| #[trigger] self.walk_between(p, (0, 0), self.goal()) implies dist@[goal as int] + 1 <= p.len() by {
                        let l = p.len() - 1;
                        self.lemma_frontier_on_walk(dist@, f0, p, l);
                        if exists|j: int|
                            0 <= j <= l && f0.contains(self.index_of(#[trigger] p[j]) as usize) && dist@[self.index_of(p[j])] <= j {
                            let j = choose|j: int|
                                0 <= j <= l && f0.contains(self.index_of(#[trigger] p[j]) as usize) && dist@[self.index_of(p[j])] <= j;
                            let t = choose|t: int| 0 <= t < f0.len() && f0[t] == self.index_of(p[j]) as usize;
                            if j < l {
                                assert(self.open_step(p[j], p[j + 1]));
                            }
                            lemma_cell_round_trip(self, p[j]);
                            self.lemma_heuristic_bound(p, j);
                            assert(f0[pos as int] == goal);
                            assert(self.heuristic(self.cell_of(goal as int)) == 0);
                            assert(dist@[f0[pos as int] as int] + self.heuristic(self.cell_of(f0[pos as int] as int))
                                <= dist@[f0[t] as int] + self.heuristic(self.cell_of(f0[t] as int)));
                        }
                    }
                }
                found = true;
                break;
            }
            let cx = cur % w;
            let cy = cur / w;
            let ghost c: Cell = (cx as int, cy as int);
            proof {
                lemma_cell_of_index(self, cur as int);
                assert(c == self.cell_of(cur as int));
                assert forall|i: int| 0 <= i < total && i != cur implies #[trigger] self.closed(dist@, frontier@, i) by {
                    assert(self.closed(dist@, f0, i));
                    if f0.contains(i as usize) {
                        let t = choose|t: int| 0 <= t < f0.len() && f0[t] == i as usize;
                        if t < pos {
                            assert(frontier@[t] == i as usize);
                        } else {
                            assert(frontier@[t - 1] == i as usize);
                        }
                    }
                }
            }
            let mut dir: u8 = 0;
            while dir < 4
                invariant
                    self.wf(),
                    w == self.width,
                    h == self.height,
                    total == w * h,
                    goal == total - 1,
                    cur < total,
                    c == self.cell_of(cur as int),
                    self.in_grid(c),
                    c == (cx as int, cy as int),
                    dist@[cur as int] < UNREACHED,
                    dir <= 4,
                    self.search_ok(dist@, came@, trails),
                    forall|j: int| 0 <= j < frontier@.len() ==> #[trigger] frontier@[j] < total && dist@[frontier@[j] as int] < UNREACHED,
                    forall|i: int| 0 <= i < total && i != cur ==> #[trigger] self.closed(dist@, frontier@, i),
                    forall|d: int|
                        0 <= d < dir && self.in_grid(step(c, d)) && !self.wall_toward(c, d) ==> #[trigger] dist@[self.index_of(step(c, d))] < UNREACHED
                            && dist@[self.index_of(step(c, d))] <= dist@[cur as int] + 1,
                    2 * sum_of(dist@) + frontier@.len() < m0,
                decreases 4 - dir,
            {
                let ghost sd = step(c, dir as int);
                match neighbor(w, h, cx, cy, dir) {
                    Some(nb) => {
                        let ghost nc: Cell = (nb.0 as int, nb.1 as int);
                        proof {
                            assert(nc == sd);
                            lemma_cell_round_trip(self, nc);
                        }
                        if self.has_wall_toward(cx, cy, dir) {
                            assert(self.wall_toward(c, dir as int));
                        } else {
                            let ni = nb.1 * w + nb.0;
                            let tentative = dist[cur] + 1;
                            proof {
                                lemma_open_toward(self, c, dir as int);
                                let tc = trails[cur as int];
                                assert(self.trail_ok(dist@, tc, cur as int));
                                if dist@[ni as int] == UNREACHED {
                                    assert(!tc.contains(ni as int));
                                    let tn = tc.push(ni as int);
                                    assert(tn.no_duplicates());
                                    lemma_distinct_bound(tn, total as int);
                                }
                            }
                            assert(ni as int == self.index_of(sd));
                            if tentative >= dist[ni] {
                                assert(dist@[self.index_of(sd)] < UNREACHED);
                                assert(dist@[self.index_of(sd)] <= dist@[cur as int] + 1);
                            }
                            if tentative < dist[ni] {
                                proof {
                                    lemma_sum_update(dist@, ni as int, tentative);
                                    self.lemma_relax(dist@, came@, frontier@, trails, cur as int, ni as int, dir as int, c);
                                    trails = trails.insert(ni as int, trails[cur as int].push(ni as int));
                                }
                                dist.set(ni, tentative);
                                came.set(ni, Some(cur));
                                frontier.push(ni);
                            }
                        }
                    },
                    None => {
                        assert(!self.in_grid(sd));
                    },
                }
                dir = dir + 1;
            }
            proof {
                assert(self.closed(dist@, frontier@, cur as int));
                lemma_sum_nonneg(dist@);
            }
        }
        if dist[goal] == UNREACHED {
            proof {
                assert(!found);
                if self.reachable(self.goal()) {
                    let p = choose|p: Seq<Cell>| self.walk_between(p, (0, 0), self.goal());
                    self.lemma_reached_along(dist@, frontier@, p, p.len() - 1);
                }
            }
            let mut r: Vec<(usize, usize)> = Vec::new();
            r.push((0, 0));
            return r;
        }
        proof {
            if !found {
                assert forall|p: Seq<Cell>| #[trigger] self.walk_between(p, (0, 0), self.goal()) implies dist@[goal as int] + 1 <= p.len() by {
                    self.lemma_frontier_on_walk(dist@, frontier@, p, p.len() - 1);
                }
            }
        }
        let mut chain: Vec<usize> = Vec::new();
        let mut at = goal;
        while at != 0
            invariant
                self.wf(),
                w == self.width,
                h == self.height,
                total == w * h,
                goal == total - 1,
                self.search_ok(dist@, came@, trails),
                at < total,
                dist@[at as int] < UNREACHED,
                chain@.len() + dist@[at as int] <= dist@[goal as int],
                forall|p: Seq<Cell>| #[trigger] self.walk_between(p, (0, 0), self.goal()) ==> dist@[goal as int] + 1 <= p.len(),
                chain@.len() == 0 ==> at == goal,
                chain@.len() > 0 ==> chain@[0] == goal && self.open_step(
                    self.cell_of(at as int),
                    self.cell_of(chain@.last() as int),
                ),
                forall|t: int|
                    0 <= t < chain@.len() - 1 ==> self.open_step(
                        self.cell_of(chain@[t + 1] as int),
                        self.cell_of(#[trigger] chain@[t] as int),
                    ),
                forall|t: int| 0 <= t < chain@.len() ==> #[trigger] chain@[t] < total,
            decreases dist@[at as int],
        {
            let ghost ch0 = chain@;
            chain.push(at);
            at = came[at].unwrap();
            proof {
                assert forall|t: int| 0 <= t < chain@.len() - 1 implies self.open_step(
                    self.cell_of(chain@[t + 1] as int),
                    self.cell_of(#[trigger] chain@[t] as int),
                ) by {
                    if t < ch0.len() - 1 {
                        assert(chain@[t] == ch0[t] && chain@[t + 1] == ch0[t + 1]);
                    }
                }
            }
        }
        let n = chain.len();
        let mut r: Vec<(usize, usize)> = Vec::new();
        r.push((0, 0));
        let mut t: usize = n;
        while t > 0
            invariant
                self.wf(),
                w == self.width,
                h == self.height,
                t <= n,
                n == chain@.len(),
                forall|q: int| 0 <= q < n ==> #[trigger] chain@[q] < w * h,
                r@.len() == n - t + 1,
                r@[0] == (0usize, 0usize),
                forall|q: int|
                    1 <= q < r@.len() ==> (#[trigger] r@[q].0 as int, r@[q].1 as int) == self.cell_of(
                        chain@[n - q] as int,
                    ),
            decreases t,
        {
            t = t - 1;
            let v = chain[t];
            r.push((v % w, v / w));
        }
        proof {
            let p = cells_of(r@);
            assert(p.len() == n + 1);
            assert(p[0] == (0int, 0int));
            assert forall|q: int| 0 <= q < p.len() - 1 implies #[trigger] self.open_step(p[q], p[q + 1]) by {
                assert(p[q + 1] == (r@[q + 1].0 as int, r@[q + 1].1 as int));
                if q == 0 {
                    assert(at == 0);
                } else {
                    assert(p[q] == (r@[q].0 as int, r@[q].1 as int));
                    let u = n - q - 1;
                    assert(self.open_step(self.cell_of(chain@[u + 1] as int), self.cell_of(chain@[u] as int)));
                }
            }
            if n > 0 {
                assert(p[n as int] == (r@[n as int].0 as int, r@[n as int].1 as int));
            }
            assert(self.walk_between(p, (0, 0), self.goal()));
            assert(self.reachable(self.goal()));
        }
        r
    }

    /// Lowering the distance of the open neighbour `ni` of `cur` to one more
    /// than that of `cur`, with `cur` as its predecessor, keeps the search
    /// consistent.
    #[verifier::rlimit(60)]
    proof fn lemma_relax(
        &self,
        d0: Seq<usize>,
        c0: Seq<Option<usize>>,
        fr0: Seq<usize>,
        t0: Map<int, Seq<int>>,
        cur: int,
        ni: int,
        dir: int,
        c: Cell,
    )
        requires
            self.wf(),
            self.search_ok(d0, c0, t0),
            forall|j: int| 0 <= j < fr0.len() ==> #[trigger] fr0[j] < self.width * self.height && d0[fr0[j] as int] < UNREACHED,
            forall|i: int| 0 <= i < self.width * self.height && i != cur ==> #[trigger] self.closed(d0, fr0, i),
            forall|d: int|
                0 <= d < dir && self.in_grid(step(c, d)) && !self.wall_toward(c, d) ==> #[trigger] d0[self.index_of(step(c, d))] < UNREACHED
                    && d0[self.index_of(step(c, d))] <= d0[cur] + 1,
            0 <= cur < self.width * self.height,
            0 <= ni < self.width * self.height,
            c == self.cell_of(cur),
            self.in_grid(c),
            0 <= dir < 4,
            self.in_grid(step(c, dir)),
            !self.wall_toward(c, dir),
            ni == self.index_of(step(c, dir)),
            self.cell_of(ni) == step(c, dir),
            d0[cur] < UNREACHED,
            d0[cur] + 1 < d0[ni],
        ensures
            ({
                let dn = d0.update(ni, (d0[cur] + 1) as usize);
                let cn = c0.update(ni, Some(cur as usize));
                let fn_ = fr0.push(ni as usize);
                let tn = t0.insert(ni, t0[cur].push(ni));
                &&& self.search_ok(dn, cn, tn)
                &&& forall|j: int| 0 <= j < fn_.len() ==> #[trigger] fn_[j] < self.width * self.height && dn[fn_[j] as int] < UNREACHED
                &&& forall|i: int| 0 <= i < self.width * self.height && i != cur ==> #[trigger] self.closed(dn, fn_, i)
                &&& forall|d: int|
                    0 <= d <= dir && self.in_grid(step(c, d)) && !self.wall_toward(c, d) ==> #[trigger] dn[self.index_of(step(c, d))] < UNREACHED
                        && dn[self.index_of(step(c, d))] <= dn[cur] + 1
            }),
    {
        let total = self.width * self.height;
        let tentative = (d0[cur] + 1) as usize;
        let dn = d0.update(ni, tentative);
        let cn = c0.update(ni, Some(cur as usize));
        let fn_ = fr0.push(ni as usize);
        let tc = t0[cur];
        let tn = t0.insert(ni, tc.push(ni));
        assert(self.trail_ok(d0, tc, cur));
        assert(!tc.contains(ni)) by {
            if tc.contains(ni) {
                let t = choose|t: int| 0 <= t < tc.len() && tc[t] == ni;
                assert(d0[tc[t]] <= t);
            }
        }
        lemma_open_toward(self, c, dir);
        assert(ni != 0);
        assert(ni != cur);
        assert forall|i: int|
            0 < i < total && #[trigger] dn[i] < UNREACHED implies cn[i] is Some && (cn[i]->0) < total
                && dn[cn[i]->0 as int] < dn[i] && self.open_step(self.cell_of(cn[i]->0 as int), self.cell_of(i)) by {
            if i != ni {
                assert(d0[i] < UNREACHED);
            }
        }
        assert forall|i: int|
            0 <= i < total && #[trigger] dn[i] < UNREACHED implies tn.dom().contains(i) && self.trail_ok(dn, tn[i], i) by {
            if i != ni {
                assert(d0[i] < UNREACHED);
                assert(self.trail_ok(d0, t0[i], i));
                let s = tn[i];
                assert forall|k: int| 0 <= k < s.len() implies 0 <= #[trigger] s[k] < total && dn[s[k]] <= k by {
                    assert(d0[s[k]] <= k);
                }
            } else {
                let s = tn[i];
                assert(s == tc.push(ni));
                assert forall|k: int| 0 <= k < s.len() implies 0 <= #[trigger] s[k] < total && dn[s[k]] <= k by {
                    if k < tc.len() {
                        assert(s[k] == tc[k]);
                        assert(d0[tc[k]] <= k);
                    }
                }
            }
        }
        assert(self.search_ok(dn, cn, tn));
        assert forall|j: int| 0 <= j < fn_.len() implies #[trigger] fn_[j] < total && dn[fn_[j] as int] < UNREACHED by {
            if j < fr0.len() {
                assert(fn_[j] == fr0[j]);
            }
        }
        assert forall|i: int| 0 <= i < total && i != cur implies #[trigger] self.closed(dn, fn_, i) by {
            if i == ni {
                assert(fn_[fn_.len() - 1] == ni as usize);
            }
            self.lemma_closed_grows(d0, fr0, dn, fn_, i);
        }
        assert forall|d: int|
            0 <= d <= dir && self.in_grid(step(c, d)) && !self.wall_toward(c, d) implies #[trigger] dn[self.index_of(step(c, d))] < UNREACHED
                && dn[self.index_of(step(c, d))] <= dn[cur] + 1 by {
            lemma_index_in_range(self, step(c, d));
            if d < dir {
                assert(d0[self.index_of(step(c, d))] < UNREACHED);
            }
        }
    }

    /// A cell stays closed when distances only decrease, the frontier only
    /// grows, and a cell whose distance changed joins the frontier.
    proof fn lemma_closed_grows(
        &self,
        d0: Seq<usize>,
        fr0: Seq<usize>,
        dn: Seq<usize>,
        fn_: Seq<usize>,
        i: int,
    )
        requires
            self.wf(),
            0 <= i < self.width * self.height,
            d0.len() == self.width * self.height,
            dn.len() == d0.len(),
            forall|x: int| 0 <= x < d0.len() ==> #[trigger] dn[x] <= d0[x],
            fr0.len() <= fn_.len(),
            forall|t: int| 0 <= t < fr0.len() ==> #[trigger] fn_[t] == fr0[t],
            self.closed(d0, fr0, i),
            dn[i] != d0[i] ==> fn_.contains(i as usize),
        ensures
            self.closed(dn, fn_, i),
    {
        if dn[i] < UNREACHED && !fn_.contains(i as usize) {
            assert(d0[i] < UNREACHED);
            if fr0.contains(i as usize) {
                let t = choose|t: int| 0 <= t < fr0.len() && fr0[t] == i as usize;
                assert(fn_[t] == i as usize);
            }
            assert(self.expanded(d0, i));
            let ci = self.cell_of(i);
            assert forall|d: int|
                0 <= d < 4 && self.in_grid(step(ci, d)) && !self.wall_toward(ci, d) implies #[trigger] dn[self.index_of(step(ci, d))] < UNREACHED
                    && dn[self.index_of(step(ci, d))] <= dn[i] + 1 by {
                lemma_cell_round_trip(self, step(ci, d));
                assert(d0[self.index_of(step(ci, d))] < UNREACHED);
                assert(dn[self.index_of(step(ci, d))] <= d0[self.index_of(step(ci, d))]);
            }
        }
    }

    /// Along a walk from the start, either some cell up to position `k` is
    /// in the frontier with distance at most its position, or the cell at
    /// position `k` has distance at most `k`.
    proof fn lemma_frontier_on_walk(&self, dist: Seq<usize>, frontier: Seq<usize>, p: Seq<Cell>, k: int)
        requires
            self.wf(),
            dist.len() == self.width * self.height,
            dist[0] == 0,
            forall|i: int| 0 <= i < self.width * self.height ==> #[trigger] self.closed(dist, frontier, i),
            self.is_walk(p),
            p[0] == (0int, 0int),
            0 <= k < p.len(),
        ensures
            (exists|j: int|
                0 <= j <= k && frontier.contains(self.index_of(#[trigger] p[j]) as usize) && dist[self.index_of(p[j])] <= j)
                || dist[self.index_of(p[k])] <= k,
        decreases k,
    {
        if k == 0 {
            assert(0 * (self.width as int) == 0) by (nonlinear_arith);
        } else {
            self.lemma_frontier_on_walk(dist, frontier, p, k - 1);
            let j = k - 1;
            assert(self.open_step(p[j], p[j + 1]));
            lemma_cell_round_trip(self, p[j]);
            lemma_cell_round_trip(self, p[k]);
            let i = self.index_of(p[j]);
            if exists|t: int|
                0 <= t <= j && frontier.contains(self.index_of(#[trigger] p[t]) as usize) && dist[self.index_of(p[t])] <= t {
                let t = choose|t: int|
                    0 <= t <= j && frontier.contains(self.index_of(#[trigger] p[t]) as usize) && dist[self.index_of(p[t])] <= t;
                assert(0 <= t <= k);
            } else if dist[i] == UNREACHED {
            } else if frontier.contains(i as usize) {
                assert(frontier.contains(self.index_of(p[j]) as usize) && dist[self.index_of(p[j])] <= j);
            } else {
                assert(self.closed(dist, frontier, i));
                let d = lemma_step_has_dir(self, p[j], p[k]);
                assert(self.expanded(dist, i));
                assert(dist[self.index_of(step(self.cell_of(i), d))] <= dist[i] + 1);
            }
        }
    }

    /// The heuristic never exceeds the number of steps left on a walk that
    /// ends at the goal.
    proof fn lemma_heuristic_bound(&self, p: Seq<Cell>, j: int)
        requires
            self.is_walk(p),
            p.last() == self.goal(),
            0 <= j < p.len(),
        ensures
            self.heuristic(p[j]) <= p.len() - 1 - j,
        decreases p.len() - j,
    {
        if j < p.len() - 1 {
            self.lemma_heuristic_bound(p, j + 1);
            assert(self.open_step(p[j], p[j + 1]));
        }
    }

    /// With the search finished and nothing left to expand, every cell along
    /// a walk from the start has been reached.
    proof fn lemma_reached_along(
        &self,
        dist: Seq<usize>,
        frontier: Seq<usize>,
        p: Seq<Cell>,
        k: int,
    )
        requires
            self.wf(),
            dist.len() == self.width * self.height,
            dist[0] == 0,
            frontier.len() == 0,
            forall|i: int| 0 <= i < self.width * self.height ==> #[trigger] self.closed(dist, frontier, i),
            self.is_walk(p),
            p[0] == (0int, 0int),
            0 <= k < p.len(),
        ensures
            dist[self.index_of(p[k])] < UNREACHED,
        decreases k,
    {
        if k == 0 {
            assert(0 * (self.width as int) == 0) by (nonlinear_arith);
        } else {
            self.lemma_reached_along(dist, frontier, p, k - 1);
            let j = k - 1;
            assert(self.open_step(p[j], p[j + 1]));
            let d = lemma_step_has_dir(self, p[k - 1], p[k]);
            lemma_cell_round_trip(self, p[k - 1]);
            let i = self.index_of(p[k - 1]);
            assert(self.closed(dist, frontier, i));
            assert(self.expanded(dist, i));
        }
    }
}

/// On a grid of one cell every walk is that single cell, so the solver's
/// path from the start to the goal is `[(0, 0)]`.
pub proof fn lemma_one_cell_walk(m: &Maze, p: Seq<Cell>)
    requires
        m.width == 1,
        m.height == 1,
        m.is_walk(p),
    ensures
        p.len() == 1,
        p[0] == (0int, 0int),
{
    if p.len() > 1 {
        let i: int = 0;
        assert(m.open_step(p[i], p[i + 1]));
    }
}

/// Solving one grid twice gives paths of the same length: each result is a
/// walk to the goal no longer than any other, or the start alone when the
/// goal cannot be reached.
pub proof fn lemma_solutions_same_length(m: &Maze, r1: Seq<(usize, usize)>, r2: Seq<(usize, usize)>)
    requires
        m.solves(r1),
        m.solves(r2),
    ensures
        r1.len() == r2.len(),
{
    if m.reachable(m.goal()) {
        assert(m.walk_between(cells_of(r1), (0, 0), m.goal()));
        assert(m.walk_between(cells_of(r2), (0, 0), m.goal()));
    }
}

} // verus!
