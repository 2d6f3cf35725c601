//! Maximal runs of standing walls along each grid line.
use vstd::prelude::*;
use crate::grid::Maze;

verus! {

/// A maximal run of standing walls on one grid line: on the vertical line
/// `x = line` it covers rows `start..end`; on the horizontal line `y = line`
/// it covers columns `start..end`.
#[derive(Clone, Copy, Debug, PartialEq, Eq)]
pub struct Segment {
    pub vertical: bool,
    pub line: usize,
    pub start: usize,
    pub end: usize,
}

/// 0 for vertical segments, 1 for horizontal ones: vertical ones come first.
pub open spec fn rank(vertical: bool) -> int {
    if vertical {
        0
    } else {
        1
    }
}

/// `s` sorts strictly before position `(r, line, pos)`.
pub open spec fn before(s: Segment, r: int, line: int, pos: int) -> bool {
    ||| rank(s.vertical) < r
    ||| (rank(s.vertical) == r && s.line < line)
    ||| (rank(s.vertical) == r && s.line == line && s.start < pos)
}

impl Maze {
    /// Number of grid lines of one orientation.
    pub open spec fn line_count(&self, vertical: bool) -> int {
        if vertical {
            self.width + 1
        } else {
            self.height + 1
        }
    }

    /// Number of wall places on each line of one orientation.
    pub open spec fn line_len(&self, vertical: bool) -> int {
        if vertical {
            self.height as int
        } else {
            self.width as int
        }
    }

    /// The wall at place `pos` of a line stands.
    pub open spec fn stands(&self, vertical: bool, line: int, pos: int) -> bool {
        if vertical {
            self.vwall(line, pos)
        } else {
            self.hwall(pos, line)
        }
    }

    /// `s` is a maximal run of standing walls.
    pub open spec fn is_run(&self, s: Segment) -> bool {
        &&& s.line < self.line_count(s.vertical)
        &&& s.start < s.end <= self.line_len(s.vertical)
        &&& forall|p: int| s.start <= p < s.end ==> #[trigger] self.stands(s.vertical, s.line as int, p)
        &&& (s.start == 0 || !self.stands(s.vertical, s.line as int, s.start - 1))
        &&& (s.end == self.line_len(s.vertical) || !self.stands(s.vertical, s.line as int, s.end as int))
    }

    /// Some segment of `segs` covers place `pos` of the given line.
    pub open spec fn covered(&self, segs: Seq<Segment>, vertical: bool, line: int, pos: int) -> bool {
        exists|k: int|
            0 <= k < segs.len() && (#[trigger] segs[k]).vertical == vertical && segs[k].line == line
                && segs[k].start <= pos < segs[k].end
    }

    /// The segments are runs, sorted with vertical ones first, then by line, then by start.
    pub open spec fn runs_sorted(&self, segs: Seq<Segment>) -> bool {
        &&& forall|k: int| 0 <= k < segs.len() ==> self.is_run(#[trigger] segs[k])
        &&& forall|k: int, l: int|
            0 <= k < l < segs.len() ==> before(
                #[trigger] segs[k],
                rank(segs[l].vertical),
                #[trigger] segs[l].line as int,
                segs[l].start as int,
            )
    }

    fn stands_at(&self, vertical: bool, line: usize, pos: usize) -> (r: bool)
        requires
            self.wf(),
            line < self.line_count(vertical),
            pos < self.line_len(vertical),
        ensures
            r == self.stands(vertical, line as int, pos as int),
    {
        if vertical {
            self.vert_walls[pos][line]
        } else {
            self.hor_walls[line][pos]
        }
    }

    /// Appends the runs of every line of one orientation.
    fn push_runs(&self, vertical: bool, out: &mut Vec<Segment>)
        requires
            self.wf(),
            self.runs_sorted(old(out)@),
            forall|k: int| 0 <= k < old(out)@.len() ==> before(#[trigger] old(out)@[k], rank(vertical), 0, 0),
        ensures
            self.runs_sorted(final(out)@),
            final(out)@.len() >= old(out)@.len(),
            forall|k: int| 0 <= k < old(out)@.len() ==> #[trigger] final(out)@[k] == old(out)@[k],
            forall|k: int| old(out)@.len() <= k < final(out)@.len() ==> (#[trigger] final(out)@[k]).vertical == vertical,
            forall|line: int, pos: int|
                0 <= line < self.line_count(vertical) && 0 <= pos < self.line_len(vertical)
                    && #[trigger] self.stands(vertical, line, pos) ==> self.covered(final(out)@, vertical, line, pos),
    {
        let ghost o0 = out@;
        let count: usize = if vertical { self.vert_walls[0].len() } else { self.hor_walls.len() };
        let len: usize = if vertical { self.height } else { self.width };
        let mut line: usize = 0;
        while line < count
            invariant
                self.wf(),
                count == self.line_count(vertical),
                len == self.line_len(vertical),
                line <= count,
                self.runs_sorted(out@),
                out@.len() >= o0.len(),
                forall|k: int| 0 <= k < o0.len() ==> #[trigger] out@[k] == o0[k],
                forall|k: int| o0.len() <= k < out@.len() ==> (#[trigger] out@[k]).vertical == vertical,
                forall|k: int| 0 <= k < out@.len() ==> before(#[trigger] out@[k], rank(vertical), line as int, 0),
                forall|ln: int, pos: int|
                    0 <= ln < line && 0 <= pos < len && #[trigger] self.stands(vertical, ln, pos) ==> self.covered(out@, vertical, ln, pos),
            decreases count - line,
        {
            let mut p: usize = 0;
            while p < len
                invariant
                    self.wf(),
                    count == self.line_count(vertical),
                    len == self.line_len(vertical),
                    line < count,
                    p <= len,
                    self.runs_sorted(out@),
                    out@.len() >= o0.len(),
                    forall|k: int| 0 <= k < o0.len() ==> #[trigger] out@[k] == o0[k],
                    forall|k: int| o0.len() <= k < out@.len() ==> (#[trigger] out@[k]).vertical == vertical,
                    forall|k: int| 0 <= k < out@.len() ==> before(#[trigger] out@[k], rank(vertical), line as int, p as int),
                    p < len && self.stands(vertical, line as int, p as int) ==> p == 0 || !self.stands(vertical, line as int, p - 1),
                    forall|ln: int, pos: int|
                        0 <= ln < line && 0 <= pos < len && #[trigger] self.stands(vertical, ln, pos) ==> self.covered(out@, vertical, ln, pos),
                    forall|pos: int|
                        0 <= pos < p && #[trigger] self.stands(vertical, line as int, pos) ==> self.covered(out@, vertical, line as int, pos),
                decreases len - p,
            {
                if self.stands_at(vertical, line, p) {
                    let mut e: usize = p + 1;
                    while e < len && self.stands_at(vertical, line, e)
                        invariant
                            self.wf(),
                            line < count,
                            count == self.line_count(vertical),
                            len == self.line_len(vertical),
                            p < e <= len,
                            forall|q: int| p <= q < e ==> #[trigger] self.stands(vertical, line as int, q),
                        decreases len - e,
                    {
                        e = e + 1;
                    }
                    let ghost before_push = out@;
                    let seg = Segment { vertical, line, start: p, end: e };
                    out.push(seg);
                    proof {
                        let o = out@;
                        assert(o[o.len() - 1] == seg);
                        assert forall|k: int| 0 <= k < o.len() implies self.is_run(#[trigger] o[k]) by {
                            if k < before_push.len() {
                                assert(o[k] == before_push[k]);
                            }
                        }
                        assert forall|k: int, l: int| 0 <= k < l < o.len() implies before(
                            #[trigger] o[k],
                            rank(o[l].vertical),
                            #[trigger] o[l].line as int,
                            o[l].start as int,
                        ) by {
                            assert(o[k] == before_push[k]);
                            if l < before_push.len() {
                                assert(o[l] == before_push[l]);
                            }
                        }
                        assert forall|ln: int, pos: int|
                            0 <= ln < line && 0 <= pos < len && #[trigger] self.stands(vertical, ln, pos) implies self.covered(o, vertical, ln, pos) by {
                            assert(self.covered(before_push, vertical, ln, pos));
                            let k = choose|k: int|
                                0 <= k < before_push.len() && (#[trigger] before_push[k]).vertical == vertical && before_push[k].line == ln
                                    && before_push[k].start <= pos < before_push[k].end;
                            assert(o[k] == before_push[k]);
                        }
                        assert forall|pos: int|
                            0 <= pos < e && #[trigger] self.stands(vertical, line as int, pos) implies self.covered(o, vertical, line as int, pos) by {
                            if pos < p {
                                assert(self.covered(before_push, vertical, line as int, pos));
                                let k = choose|k: int|
                                    0 <= k < before_push.len() && (#[trigger] before_push[k]).vertical == vertical && before_push[k].line == line
                                        && before_push[k].start <= pos < before_push[k].end;
                                assert(o[k] == before_push[k]);
                            } else {
                                assert(o[o.len() - 1].start <= pos);
                            }
                        }
                    }
                    p = e;
                } else {
                    p = p + 1;
                }
            }
            line = line + 1;
        }
    }

    /// The maximal runs of standing walls: first those on the vertical lines
    /// `x = 0..=width`, then those on the horizontal lines `y = 0..=height`,
    /// each line's runs from its start. Every standing wall lies in exactly
    /// one run.
    pub fn wall_segments(&self) -> (r: Vec<Segment>)
        requires
            self.wf(),
        ensures
            self.runs_sorted(r@),
            forall|x: int, y: int|
                0 <= x <= self.width && 0 <= y < self.height && #[trigger] self.vwall(x, y) ==> self.covered(r@, true, x, y),
            forall|x: int, y: int|
                0 <= x < self.width && 0 <= y <= self.height && #[trigger] self.hwall(x, y) ==> self.covered(r@, false, y, x),
    {
        let mut out: Vec<Segment> = Vec::new();
        self.push_runs(true, &mut out);
        let ghost v = out@;
        self.push_runs(false, &mut out);
        proof {
            assert forall|x: int, y: int|
                0 <= x <= self.width && 0 <= y < self.height && #[trigger] self.vwall(x, y) implies self.covered(out@, true, x, y) by {
                assert(self.stands(true, x, y));
                assert(self.covered(v, true, x, y));
                let k = choose|k: int|
                    0 <= k < v.len() && (#[trigger] v[k]).vertical == true && v[k].line == x && v[k].start <= y < v[k].end;
                assert(out@[k] == v[k]);
            }
            assert forall|x: int, y: int|
                0 <= x < self.width && 0 <= y <= self.height && #[trigger] self.hwall(x, y) implies self.covered(out@, false, y, x) by {
                assert(self.stands(false, y, x));
            }
        }
        out
    }
}

/// An axis-aligned box of the exported level: the centre of its base and
/// its extent along x, y (up) and z, in pixels.
#[derive(Clone, Copy, Debug, PartialEq, Eq)]
pub struct MapBox {
    pub px: i64,
    pub py: i64,
    pub pz: i64,
    pub sx: i64,
    pub sy: i64,
    pub sz: i64,
}

/// Height of an exported wall.
pub const WALL_HEIGHT: i64 = 20;

/// Largest coordinate, in pixels, that the level format holds.
pub const COORD_MAX: usize = 0x7fff_ffff;

/// The box of a wall run scaled by `cs` pixels per cell, `wt` pixels thick.
pub open spec fn box_matches(b: MapBox, s: Segment, cs: int, wt: int) -> bool {
    let a = s.start * cs;
    let z = s.end * cs;
    if s.vertical {
        b.px == s.line * cs && b.py == 0 && b.pz == (a + z) / 2 && b.sx == wt && b.sy == WALL_HEIGHT
            && b.sz == z - a
    } else {
        b.px == (a + z) / 2 && b.py == 0 && b.pz == s.line * cs && b.sx == z - a && b.sy
            == WALL_HEIGHT && b.sz == wt
    }
}

/// Every coordinate of `s` scaled by `cs` stays within the level format.
pub open spec fn segment_fits(s: Segment, cs: int) -> bool {
    s.line <= COORD_MAX && s.end <= COORD_MAX && s.line * cs <= COORD_MAX && s.start <= s.end
        && s.end * cs <= COORD_MAX
}

/// Whether `s` scaled by `cell_size` stays within the level format.
pub fn fits_level(s: &Segment, cell_size: usize) -> (r: bool)
    ensures
        r == segment_fits(*s, cell_size as int),
{
    s.line <= COORD_MAX && s.end <= COORD_MAX && s.start <= s.end && s.line.checked_mul(cell_size).is_some()
        && s.line * cell_size <= COORD_MAX && s.end.checked_mul(cell_size).is_some() && s.end
        * cell_size <= COORD_MAX
}

/// The boxes of the given wall runs, one for each, in order.
pub fn wall_boxes(segs: &Vec<Segment>, cell_size: usize, wall_thick: usize) -> (r: Vec<MapBox>)
    requires
        cell_size <= COORD_MAX,
        wall_thick <= COORD_MAX,
        forall|k: int| 0 <= k < segs@.len() ==> segment_fits(#[trigger] segs@[k], cell_size as int),
    ensures
        r@.len() == segs@.len(),
        forall|k: int|
            0 <= k < segs@.len() ==> box_matches(
                #[trigger] r@[k],
                segs@[k],
                cell_size as int,
                wall_thick as int,
            ),
{
    let mut r: Vec<MapBox> = Vec::new();
    let cs = cell_size as i64;
    let wt = wall_thick as i64;
    let mut k: usize = 0;
    while k < segs.len()
        invariant
            cell_size <= COORD_MAX,
            wall_thick <= COORD_MAX,
            cs == cell_size,
            wt == wall_thick,
            forall|k: int| 0 <= k < segs@.len() ==> segment_fits(#[trigger] segs@[k], cell_size as int),
            k <= segs@.len(),
            r@.len() == k,
            forall|j: int|
                0 <= j < k ==> box_matches(#[trigger] r@[j], segs@[j], cell_size as int, wall_thick as int),
        decreases segs@.len() - k,
    {
        let s = segs[k];
        assert(segment_fits(segs@[k as int], cell_size as int));
        proof {
            assert(s.start * cell_size <= s.end * cell_size) by (nonlinear_arith)
                requires
                    s.start <= s.end,
            ;
            assert(0 <= s.start * cell_size && 0 <= s.line * cell_size) by (nonlinear_arith);
            assert(s.start * cell_size <= s.end * cell_size);
        }
        let line = s.line as i64 * cs;
        let a = s.start as i64 * cs;
        let z = s.end as i64 * cs;
        let b = if s.vertical {
            MapBox { px: line, py: 0, pz: (a + z) / 2, sx: wt, sy: WALL_HEIGHT, sz: z - a }
        } else {
            MapBox { px: (a + z) / 2, py: 0, pz: line, sx: z - a, sy: WALL_HEIGHT, sz: wt }
        };
        r.push(b);
        k = k + 1;
    }
    r
}

impl Maze {
    /// The floor box: it spans the whole grid, one pixel thick, just below
    /// the walls.
    pub fn floor_box(&self, cell_size: usize) -> (b: MapBox)
        requires
            self.width * cell_size <= COORD_MAX,
            self.height * cell_size <= COORD_MAX,
        ensures
            b.px == (self.width * cell_size) / 2,
            b.py == -1,
            b.pz == (self.height * cell_size) / 2,
            b.sx == self.width * cell_size,
            b.sy == 1,
            b.sz == self.height * cell_size,
    {
        let fw = (self.width * cell_size) as i64;
        let fd = (self.height * cell_size) as i64;
        MapBox { px: fw / 2, py: -1, pz: fd / 2, sx: fw, sy: 1, sz: fd }
    }

    /// The two spawn points, at the centres of the top-left and bottom-right
    /// cells, as `(x, y, z)`.
    pub fn spawn_points(&self, cell_size: usize) -> (r: ((i64, i64, i64), (i64, i64, i64)))
        requires
            self.width * cell_size <= COORD_MAX,
            self.height * cell_size <= COORD_MAX,
        ensures
            r.0.0 == cell_size / 2,
            r.0.1 == 0,
            r.0.2 == cell_size / 2,
            r.1.0 == self.width * cell_size - cell_size / 2,
            r.1.1 == 0,
            r.1.2 == self.height * cell_size - cell_size / 2,
    {
        let fw = (self.width * cell_size) as i64;
        let fd = (self.height * cell_size) as i64;
        let half = (cell_size / 2) as i64;
        ((half, 0, half), (fw - half, 0, fd - half))
    }
}

/// A filled rectangle of the raster picture: left and top pixel, width and height.
#[derive(Clone, Copy, Debug, PartialEq, Eq)]
pub struct Rect {
    pub x: usize,
    pub y: usize,
    pub w: usize,
    pub h: usize,
}

/// The pixels of a wall run: `wt` wide across the line, `cs` per cell along it.
pub open spec fn run_rect_matches(r: Rect, s: Segment, cs: int, wt: int) -> bool {
    if s.vertical {
        r.x == s.line * cs && r.y == s.start * cs && r.w == wt && r.h == (s.end - s.start) * cs
    } else {
        r.x == s.start * cs && r.y == s.line * cs && r.w == (s.end - s.start) * cs && r.h == wt
    }
}

/// The rectangle that paints a wall run.
pub fn run_rect(s: &Segment, cell_size: usize, wall_thick: usize) -> (r: Rect)
    requires
        s.start <= s.end,
        s.line * cell_size <= usize::MAX,
        s.end * cell_size <= usize::MAX,
    ensures
        run_rect_matches(r, *s, cell_size as int, wall_thick as int),
{
    proof {
        assert(s.start * cell_size <= s.end * cell_size) by (nonlinear_arith)
            requires
                s.start <= s.end,
        ;
        assert((s.end - s.start) * cell_size == s.end * cell_size - s.start * cell_size) by (nonlinear_arith);
    }
    let a = s.start * cell_size;
    let z = s.end * cell_size;
    let l = s.line * cell_size;
    if s.vertical {
        Rect { x: l, y: a, w: wall_thick, h: z - a }
    } else {
        Rect { x: a, y: l, w: z - a, h: wall_thick }
    }
}

/// Side of the raster picture, in pixels, for `cells` cells of `cell_size`
/// pixels plus one wall thickness; `None` when it exceeds `u32`.
pub fn image_side(cells: usize, cell_size: usize, wall_thick: usize) -> (r: Option<u32>)
    ensures
        cells * cell_size + wall_thick <= u32::MAX ==> r == Some((cells * cell_size + wall_thick) as u32),
        cells * cell_size + wall_thick > u32::MAX ==> r is None,
{
    match cells.checked_mul(cell_size) {
        Some(a) => match a.checked_add(wall_thick) {
            Some(b) => {
                if b <= u32::MAX as usize {
                    Some(b as u32)
                } else {
                    None
                }
            },
            None => None,
        },
        None => None,
    }
}

/// Pixel centre of a cell along one axis.
pub open spec fn centre(i: int, cs: int) -> int {
    i * cs + cs / 2
}

/// The stroke of half a cell's width that joins the centres of cells `a`
/// and `b`, both ends included; across the stroke it starts half its width
/// before the centre line, or at 0.
pub open spec fn stroke_matches(r: Rect, a: (usize, usize), b: (usize, usize), cs: int) -> bool {
    let t = cs / 2;
    let (ax, ay) = (centre(a.0 as int, cs), centre(a.1 as int, cs));
    let (bx, by) = (centre(b.0 as int, cs), centre(b.1 as int, cs));
    if ax == bx {
        &&& r.x == if ax >= t / 2 { ax - t / 2 } else { 0 }
        &&& r.y == if ay <= by { ay } else { by }
        &&& r.w == t
        &&& r.h == (if ay <= by { by - ay } else { ay - by }) + 1
    } else {
        &&& r.x == if ax <= bx { ax } else { bx }
        &&& r.y == if ay >= t / 2 { ay - t / 2 } else { 0 }
        &&& r.w == (if ax <= bx { bx - ax } else { ax - bx }) + 1
        &&& r.h == t
    }
}

/// The rectangle that paints the step of a path from cell `a` to cell `b`.
pub fn stroke_rect(a: (usize, usize), b: (usize, usize), cell_size: usize) -> (r: Rect)
    requires
        (a.0 + 1) * cell_size < usize::MAX,
        (a.1 + 1) * cell_size < usize::MAX,
        (b.0 + 1) * cell_size < usize::MAX,
        (b.1 + 1) * cell_size < usize::MAX,
    ensures
        stroke_matches(r, a, b, cell_size as int),
{
    proof {
        assert(a.0 * cell_size + cell_size == (a.0 + 1) * cell_size) by (nonlinear_arith);
        assert(a.1 * cell_size + cell_size == (a.1 + 1) * cell_size) by (nonlinear_arith);
        assert(b.0 * cell_size + cell_size == (b.0 + 1) * cell_size) by (nonlinear_arith);
        assert(b.1 * cell_size + cell_size == (b.1 + 1) * cell_size) by (nonlinear_arith);
    }
    let half = cell_size / 2;
    let ax = a.0 * cell_size + half;
    let ay = a.1 * cell_size + half;
    let bx = b.0 * cell_size + half;
    let by = b.1 * cell_size + half;
    let t = half;
    if ax == bx {
        let x = if ax >= t / 2 { ax - t / 2 } else { 0 };
        let (y, len) = if ay <= by { (ay, by - ay) } else { (by, ay - by) };
        Rect { x, y, w: t, h: len + 1 }
    } else {
        let y = if ay >= t / 2 { ay - t / 2 } else { 0 };
        let (x, len) = if ax <= bx { (ax, bx - ax) } else { (bx, ax - bx) };
        Rect { x, y, w: len + 1, h: t }
    }
}

} // verus!
