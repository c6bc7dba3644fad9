use vstd::prelude::*;

use crate::ordering::{
    dedup_adjacent, dedup_points, key, lemma_dedup, lemma_sort, sort_by_key, sort_points,
};
use crate::point::{sq_dist, Point, Vector};

verus! {

/// A straight segment between two endpoints. The order of the endpoints
/// matters for display only.
#[derive(Clone, Copy, Debug, PartialEq, Eq, Structural)]
pub struct Line {
    pub p1: Point,
    pub p2: Point,
}

/// `|cross|² <= tol² · len²`, that is `|cross| / len <= tol` without a square root.
pub open spec fn cross_within(cross: int, tol: int, sq_len: int) -> bool {
    cross * cross <= tol * tol * sq_len
}

impl Line {
    /// A segment is well formed when its endpoints differ.
    pub open spec fn wf(self) -> bool {
        self.p1 != self.p2
    }

    pub open spec fn sq_len(self) -> int {
        sq_dist(self.p1, self.p2)
    }

    /// Cross product of `p2 - p1` with `p - p1`: zero exactly when `p` is on
    /// the line through the endpoints; its magnitude over the segment's
    /// length is the distance of `p` from that line.
    pub open spec fn offset_cross(self, p: Point) -> int {
        (self.p2.x - self.p1.x) * (p.y - self.p1.y) - (self.p2.y - self.p1.y) * (p.x - self.p1.x)
    }

    /// `p` lies within perpendicular distance `tol` of the infinite line.
    pub open spec fn near_line(self, p: Point, tol: int) -> bool {
        tol >= 0 && cross_within(self.offset_cross(p), tol, self.sq_len())
    }

    /// `p` is closer than the segment's length to both endpoints, or is an endpoint.
    pub open spec fn within_span(self, p: Point) -> bool {
        (sq_dist(p, self.p1) < self.sq_len() && sq_dist(p, self.p2) < self.sq_len())
            || sq_dist(p, self.p1) == 0 || sq_dist(p, self.p2) == 0
    }

    pub open spec fn overlaps_spec(self, p: Point, tol: int) -> bool {
        self.near_line(p, tol) && self.within_span(p)
    }

    pub open spec fn contains_spec(self, p: Point, tol: int) -> bool {
        &&& self.overlaps_spec(p, tol)
        &&& sq_dist(p, self.p1) > tol * tol
        &&& sq_dist(p, self.p2) > tol * tol
    }

    pub fn new(x1: i32, y1: i32, x2: i32, y2: i32) -> (r: Line)
        ensures
            r.p1 == (Point { x: x1, y: y1 }),
            r.p2 == (Point { x: x2, y: y2 }),
    {
        Line { p1: Point { x: x1, y: y1 }, p2: Point { x: x2, y: y2 } }
    }

    pub fn from_points(p1: Point, p2: Point) -> (r: Line)
        ensures
            r.p1 == p1,
            r.p2 == p2,
    {
        Line { p1, p2 }
    }

    /// The endpoint at position `i` (0 or 1).
    pub fn index(&self, i: usize) -> (r: &Point)
        requires
            i < 2,
        ensures
            *r == (if i == 0 { self.p1 } else { self.p2 }),
    {
        if i == 0 {
            &self.p1
        } else {
            &self.p2
        }
    }

    /// The endpoint at position `i` (0 or 1), for changing it.
    pub fn index_mut(&mut self, i: usize) -> (r: &mut Point)
        requires
            i < 2,
        ensures
            *r == (if i == 0 { old(self).p1 } else { old(self).p2 }),
            *final(self) == (if i == 0 {
                Line { p1: *final(r), p2: old(self).p2 }
            } else {
                Line { p1: old(self).p1, p2: *final(r) }
            }),
    {
        if i == 0 {
            &mut self.p1
        } else {
            &mut self.p2
        }
    }

    /// The direction `p1 - p2`, turned so that its y-component is not negative.
    pub fn to_vector(&self) -> (r: Vector)
        ensures
            r.fits(),
            r.y >= 0,
            self.p1.y >= self.p2.y ==> r.x == self.p1.x - self.p2.x && r.y == self.p1.y - self.p2.y,
            self.p1.y < self.p2.y ==> r.x == self.p2.x - self.p1.x && r.y == self.p2.y - self.p1.y,
    {
        let diff = self.p1.minus(self.p2);
        if diff.y < 0 {
            diff.negate()
        } else {
            diff
        }
    }

    /// Whether `point` lies on this segment, endpoints included: within
    /// `max_dist` of its line and inside its span.
    pub fn overlaps(&self, point: &Point, max_dist: i32) -> (r: bool)
        ensures
            r == self.overlaps_spec(*point, max_dist as int),
    {
        if max_dist < 0 {
            return false;
        }
        let v = self.to_vector();
        let len_sq = v.square_length();
        let w = self.p1.minus(*point);
        let c = v.cross(w);
        proof {
            let p = *point;
            let oc = self.offset_cross(p);
            assert(c == oc || c == -oc) by (nonlinear_arith)
                requires
                    c == v.x * w.y - v.y * w.x,
                    w.x == self.p1.x - p.x,
                    w.y == self.p1.y - p.y,
                    oc == (self.p2.x - self.p1.x) * (p.y - self.p1.y) - (self.p2.y - self.p1.y) * (
                    p.x - self.p1.x),
                    (v.x == self.p1.x - self.p2.x && v.y == self.p1.y - self.p2.y) || (v.x
                        == self.p2.x - self.p1.x && v.y == self.p2.y - self.p1.y),
            ;
            assert(c * c == oc * oc) by (nonlinear_arith)
                requires c == oc || c == -oc;
            assert(len_sq == self.sq_len()) by (nonlinear_arith)
                requires
                    len_sq == v.x * v.x + v.y * v.y,
                    (v.x == self.p1.x - self.p2.x && v.y == self.p1.y - self.p2.y) || (v.x
                        == self.p2.x - self.p1.x && v.y == self.p2.y - self.p1.y),
            ;
        }
        let ac: u128 = if c < 0 { (-c) as u128 } else { c as u128 };
        let t: u128 = max_dist as u128;
        assert(t * t < 0x4000_0000_0000_0000) by (nonlinear_arith)
            requires t < 0x8000_0000;
        assert(t * t * len_sq < 0x8000_0000_0000_0000_0000_0000_0000_0000) by (nonlinear_arith)
            requires t * t < 0x4000_0000_0000_0000, len_sq < 0x2_0000_0000_0000_0000;
        let bound: u128 = t * t * len_sq;
        if ac >= 0x1_0000_0000_0000_0000 {
            assert(ac * ac >= 0x1_0000_0000_0000_0000 * 0x1_0000_0000_0000_0000) by (nonlinear_arith)
                requires ac >= 0x1_0000_0000_0000_0000;
            assert(ac * ac == c * c) by (nonlinear_arith)
                requires ac == c || ac == -c;
            return false;
        }
        assert(ac * ac < 0x1_0000_0000_0000_0000 * 0x1_0000_0000_0000_0000) by (nonlinear_arith)
            requires ac < 0x1_0000_0000_0000_0000;
        assert(ac * ac == c * c) by (nonlinear_arith)
            requires ac == c || ac == -c;
        if ac * ac > bound {
            return false;
        }
        let d1 = point.minus(self.p1).square_length();
        let d2 = point.minus(self.p2).square_length();
        (d1 < len_sq && d2 < len_sq) || d1 == 0 || d2 == 0
    }

    /// Whether `point` lies on this segment strictly inside it: it overlaps
    /// the segment and is farther than `max_dist` from both endpoints.
    pub fn contains(&self, point: &Point, max_dist: i32) -> (r: bool)
        ensures
            r == self.contains_spec(*point, max_dist as int),
    {
        let m: i64 = max_dist as i64;
        assert(0 <= m * m < 0x4000_0000_0000_0001) by (nonlinear_arith)
            requires -0x8000_0000 <= m < 0x8000_0000;
        let dist_sqr: u128 = (m * m) as u128;
        self.overlaps(point, max_dist) && point.minus(self.p1).square_length() > dist_sqr
            && point.minus(self.p2).square_length() > dist_sqr
    }
}

/// `[p]` when `keep` holds, else nothing.
pub open spec fn keep_if(keep: bool, p: Point) -> Seq<Point> {
    if keep {
        seq![p]
    } else {
        seq![]
    }
}

/// The endpoints of each segment that overlap the other segment, in the order
/// `b.p1`, `b.p2` (tested against `a`), then `a.p1`, `a.p2` (tested against `b`).
pub open spec fn overlap_candidates(a: Line, b: Line, tol: int) -> Seq<Point> {
    keep_if(a.overlaps_spec(b.p1, tol), b.p1) + keep_if(a.overlaps_spec(b.p2, tol), b.p2)
        + keep_if(b.overlaps_spec(a.p1, tol), a.p1) + keep_if(b.overlaps_spec(a.p2, tol), a.p2)
}

/// The shared sub-span of two segments: two distinct qualifying endpoints
/// are its ends (the same point twice is a lone shared vertex, which is no
/// span); of three, one is the shared vertex counted twice, and the first two
/// are taken unless they lie within `tol` of each other, in which case the
/// last two are; none, one or four qualifying endpoints give nothing.
pub open spec fn overlap_of(a: Line, b: Line, tol: int) -> Option<(Point, Point)> {
    let c = overlap_candidates(a, b, tol);
    if c.len() == 2 && c[0] != c[1] {
        Some((c[0], c[1]))
    } else if c.len() == 3 {
        if sq_dist(c[0], c[1]) <= tol * tol {
            Some((c[1], c[2]))
        } else {
            Some((c[0], c[1]))
        }
    } else {
        None
    }
}

impl Line {
    /// The start and end of the span that `a` and `b` share within
    /// `max_dist`, or `None` when they share no span, touch at a single
    /// vertex only, or match exactly.
    pub fn find_overlaps(a: &Line, b: &Line, max_dist: i32) -> (r: Option<(Point, Point)>)
        ensures
            r == overlap_of(*a, *b, max_dist as int),
    {
        let mut found: Vec<Point> = Vec::new();
        if a.overlaps(&b.p1, max_dist) {
            found.push(b.p1);
        }
        let ghost s0 = found@;
        if a.overlaps(&b.p2, max_dist) {
            found.push(b.p2);
        }
        let ghost s1 = found@;
        if b.overlaps(&a.p1, max_dist) {
            found.push(a.p1);
        }
        let ghost s2 = found@;
        if b.overlaps(&a.p2, max_dist) {
            found.push(a.p2);
        }
        proof {
            let t = max_dist as int;
            assert(s0 =~= keep_if(a.overlaps_spec(b.p1, t), b.p1));
            assert(s1 =~= s0 + keep_if(a.overlaps_spec(b.p2, t), b.p2));
            assert(s2 =~= s1 + keep_if(b.overlaps_spec(a.p1, t), a.p1));
            assert(found@ =~= s2 + keep_if(b.overlaps_spec(a.p2, t), a.p2));
            assert(found@ =~= overlap_candidates(*a, *b, t));
        }
        if found.len() == 2 {
            if found[0] == found[1] {
                None
            } else {
                Some((found[0], found[1]))
            }
        } else if found.len() == 3 {
            let m: i64 = max_dist as i64;
            assert(0 <= m * m < 0x4000_0000_0000_0001) by (nonlinear_arith)
                requires -0x8000_0000 <= m < 0x8000_0000;
            let gap: u128 = found[0].minus(found[1]).square_length();
            if gap <= (m * m) as u128 {
                Some((found[1], found[2]))
            } else {
                Some((found[0], found[1]))
            }
        } else {
            None
        }
    }
}

pub open spec fn abs(a: int) -> int {
    if a < 0 {
        -a
    } else {
        a
    }
}

/// The segments joining each point of `q` to the next one.
pub open spec fn chain_of(q: Seq<Point>) -> Seq<Line> {
    if q.len() < 2 {
        seq![]
    } else {
        Seq::new((q.len() - 1) as nat, |k: int| Line { p1: q[k], p2: q[k + 1] })
    }
}

impl Line {
    /// Points are ordered along `x` when the segment runs more along `x` than along `y`.
    pub open spec fn sorts_by_x(self) -> bool {
        abs(self.p1.x - self.p2.x) > abs(self.p1.y - self.p2.y)
    }

    /// The extra points and the two endpoints, in stable order along the
    /// segment's main axis, with repeats of the same point next to each other
    /// collapsed.
    pub open spec fn breakpoints(self, extra: Seq<Point>) -> Seq<Point> {
        dedup_adjacent(sort_by_key(extra + seq![self.p1, self.p2], self.sorts_by_x()))
    }

    pub open spec fn split_spec(self, extra: Seq<Point>) -> Seq<Line> {
        chain_of(self.breakpoints(extra))
    }

    /// The segments that this one becomes when broken at `points`: one from
    /// each breakpoint to the next (see `breakpoints`). Only exactly equal
    /// points are merged; `_max_dist` plays no part.
    pub fn split(&self, points: Vec<Point>, _max_dist: i32) -> (r: Vec<Line>)
        ensures
            r@ == self.split_spec(points@),
            forall|k: int| 0 <= k < r@.len() ==> (#[trigger] r@[k]).wf(),
    {
        let mut points = points;
        let ghost extra = points@;
        points.push(self.p1);
        points.push(self.p2);
        assert(points@ =~= extra + seq![self.p1, self.p2]);
        let v = self.to_vector();
        let ax: i64 = if v.x < 0 { -v.x } else { v.x };
        let ay: i64 = if v.y < 0 { -v.y } else { v.y };
        let by_x = ax > ay;
        assert(by_x == self.sorts_by_x());
        let sorted = sort_points(&points, by_x);
        let q = dedup_points(&sorted);
        let mut result: Vec<Line> = Vec::new();
        let mut i: usize = 1;
        while i < q.len()
            invariant
                1 <= i,
                i <= q.len() || i == 1,
                result@.len() == i - 1,
                forall|k: int|
                    0 <= k < i - 1 ==> #[trigger] result@[k] == (Line { p1: q@[k], p2: q@[k + 1] }),
            decreases q.len() - i,
        {
            result.push(Line::from_points(q[i - 1], q[i]));
            i += 1;
        }
        proof {
            lemma_dedup(sorted@, by_x);
            if q@.len() < 2 {
                assert(result@ =~= chain_of(q@));
            } else {
                assert(i == q@.len());
                assert(result@ =~= chain_of(q@));
            }
        }
        result
    }
}

/// `v` lies between `a` and `b`, in either order.
pub open spec fn between(v: int, a: int, b: int) -> bool {
    (a <= v <= b) || (b <= v <= a)
}

impl Line {
    /// `p` lies exactly on the segment: on its line and within the box of its endpoints.
    pub open spec fn on_segment(self, p: Point) -> bool {
        &&& self.offset_cross(p) == 0
        &&& between(p.x as int, self.p1.x as int, self.p2.x as int)
        &&& between(p.y as int, self.p1.y as int, self.p2.y as int)
    }
}

proof fn lemma_sq_dist_zero(a: Point, b: Point)
    ensures
        sq_dist(a, b) >= 0,
        sq_dist(a, b) == 0 <==> a == b,
{
    let dx = a.x - b.x;
    let dy = a.y - b.y;
    assert(dx * dx >= 0 && dy * dy >= 0) by (nonlinear_arith);
    assert(dx * dx + dy * dy == 0 ==> dx == 0 && dy == 0) by (nonlinear_arith);
    assert(sq_dist(a, b) == dx * dx + dy * dy);
    if a == b {
        assert(dx == 0 && dy == 0);
        assert(dx * dx + dy * dy == 0) by (nonlinear_arith)
            requires dx == 0 && dy == 0;
    }
    if sq_dist(a, b) == 0 {
        assert(a.x == b.x && a.y == b.y);
    }
}

/// Of a point inside the box of `[0, w]` on both axes, the squared length is
/// smaller than that of `w`, unless the two coincide.
proof fn lemma_inside_box_shorter(ux: int, uy: int, wx: int, wy: int)
    requires
        between(ux, 0, wx),
        between(uy, 0, wy),
        ux != wx || uy != wy,
    ensures
        ux * ux + uy * uy < wx * wx + wy * wy,
{
    assert(ux * ux <= wx * wx) by (nonlinear_arith)
        requires between(ux, 0, wx);
    assert(uy * uy <= wy * wy) by (nonlinear_arith)
        requires between(uy, 0, wy);
    assert(ux != wx ==> ux * ux < wx * wx) by (nonlinear_arith)
        requires between(ux, 0, wx);
    assert(uy != wy ==> uy * uy < wy * wy) by (nonlinear_arith)
        requires between(uy, 0, wy);
}

/// Both endpoints of a segment overlap it, for every tolerance that is not negative.
pub proof fn lemma_endpoints_overlap(s: Line, t: int)
    requires
        t >= 0,
    ensures
        s.overlaps_spec(s.p1, t),
        s.overlaps_spec(s.p2, t),
{
    lemma_sq_dist_zero(s.p1, s.p1);
    lemma_sq_dist_zero(s.p2, s.p2);
    lemma_sq_dist_zero(s.p1, s.p2);
    assert(s.offset_cross(s.p2) == 0) by (nonlinear_arith);
    assert(t * t * s.sq_len() >= 0) by (nonlinear_arith)
        requires s.sq_len() >= 0;
}

/// A point on a segment that is neither endpoint is contained in it for
/// every tolerance `t >= 0` smaller than its distance to both endpoints (for
/// `t == 0` among others), while an endpoint is contained for no tolerance.
pub proof fn lemma_interior_contained(s: Line, p: Point)
    requires
        s.on_segment(p),
        p != s.p1,
        p != s.p2,
    ensures
        s.contains_spec(p, 0),
        forall|t: int|
            0 <= t && t * t < sq_dist(p, s.p1) && t * t < sq_dist(p, s.p2) ==> #[trigger] s.contains_spec(p, t),
        forall|t: int| !#[trigger] s.contains_spec(s.p1, t) && !s.contains_spec(s.p2, t),
{
    lemma_sq_dist_zero(p, s.p1);
    lemma_sq_dist_zero(p, s.p2);
    lemma_sq_dist_zero(s.p1, s.p1);
    lemma_sq_dist_zero(s.p2, s.p2);
    lemma_sq_dist_zero(s.p1, s.p2);
    lemma_inside_box_shorter(
        p.x - s.p1.x,
        p.y - s.p1.y,
        s.p2.x - s.p1.x,
        s.p2.y - s.p1.y,
    );
    lemma_inside_box_shorter(
        p.x - s.p2.x,
        p.y - s.p2.y,
        s.p1.x - s.p2.x,
        s.p1.y - s.p2.y,
    );
    assert(sq_dist(p, s.p1) == (p.x - s.p1.x) * (p.x - s.p1.x) + (p.y - s.p1.y) * (p.y - s.p1.y));
    assert(sq_dist(s.p2, s.p1) == sq_dist(s.p1, s.p2)) by (nonlinear_arith);
    assert forall|t: int|
        0 <= t && t * t < sq_dist(p, s.p1) && t * t < sq_dist(p, s.p2) implies #[trigger] s.contains_spec(
        p,
        t,
    ) by {
        assert(t * t * s.sq_len() >= 0) by (nonlinear_arith)
            requires s.sq_len() >= 0;
    }
    assert(0int * 0 < sq_dist(p, s.p1));
    assert(0int * 0 < sq_dist(p, s.p2));
    assert forall|t: int| !#[trigger] s.contains_spec(s.p1, t) && !s.contains_spec(s.p2, t) by {
        assert(t * t >= 0) by (nonlinear_arith);
    }
}

impl Line {
    /// The endpoint that comes first along the axis that `split` orders by.
    pub open spec fn low_end(self) -> Point {
        if key(self.p1, self.sorts_by_x()) <= key(self.p2, self.sorts_by_x()) {
            self.p1
        } else {
            self.p2
        }
    }

    /// The endpoint that comes last along the axis that `split` orders by.
    pub open spec fn high_end(self) -> Point {
        if key(self.p1, self.sorts_by_x()) <= key(self.p2, self.sorts_by_x()) {
            self.p2
        } else {
            self.p1
        }
    }
}

/// On a well-formed segment, the coordinate that `split` orders by tells
/// points apart.
proof fn lemma_key_injective(s: Line, a: Point, b: Point)
    requires
        s.wf(),
        s.on_segment(a),
        s.on_segment(b),
        key(a, s.sorts_by_x()) == key(b, s.sorts_by_x()),
    ensures
        a == b,
{
    let wx = s.p2.x - s.p1.x;
    let wy = s.p2.y - s.p1.y;
    let dx = a.x - b.x;
    let dy = a.y - b.y;
    assert(wx * dy - wy * dx == 0) by (nonlinear_arith)
        requires
            wx * (a.y - s.p1.y) - wy * (a.x - s.p1.x) == 0,
            wx * (b.y - s.p1.y) - wy * (b.x - s.p1.x) == 0,
            dx == a.x - b.x,
            dy == a.y - b.y,
    ;
    if s.sorts_by_x() {
        assert(wx != 0);
        assert(dy == 0) by (nonlinear_arith)
            requires wx * dy - wy * dx == 0, dx == 0, wx != 0;
    } else {
        assert(wy != 0) by {
            if wy == 0 {
                assert(wx == 0);
                assert(s.p1 == s.p2);
            }
        }
        assert(dx == 0) by (nonlinear_arith)
            requires wx * dy - wy * dx == 0, dy == 0, wy != 0;
    }
}

/// Splitting loses nothing of the segment and adds nothing to it: when every
/// extra point lies on a well-formed segment, the pieces run end to end from
/// its first endpoint to its last along the ordering axis, each piece moves
/// strictly forward along that axis, and every piece's endpoints lie on the
/// segment.
pub proof fn lemma_split_covers(s: Line, extra: Seq<Point>)
    requires
        s.wf(),
        forall|k: int| 0 <= k < extra.len() ==> s.on_segment(#[trigger] extra[k]),
    ensures
        ({
            let r = s.split_spec(extra);
            let bx = s.sorts_by_x();
            &&& r.len() >= 1
            &&& r[0].p1 == s.low_end()
            &&& r[r.len() - 1].p2 == s.high_end()
            &&& forall|k: int| 0 <= k < r.len() - 1 ==> (#[trigger] r[k]).p2 == r[k + 1].p1
            &&& forall|k: int| 0 <= k < r.len() ==> key((#[trigger] r[k]).p1, bx) < key(r[k].p2, bx)
            &&& forall|k: int|
                0 <= k < r.len() ==> s.on_segment((#[trigger] r[k]).p1) && s.on_segment(r[k].p2)
        }),
{
    let bx = s.sorts_by_x();
    let all = extra + seq![s.p1, s.p2];
    let sorted = sort_by_key(all, bx);
    let q = dedup_adjacent(sorted);
    lemma_sort(all, bx);
    lemma_dedup(sorted, bx);
    let lo = s.low_end();
    let hi = s.high_end();
    assert(s.on_segment(s.p1));
    assert(s.offset_cross(s.p2) == 0) by (nonlinear_arith);
    assert(s.on_segment(s.p2));
    assert forall|x: Point| q.contains(x) implies s.on_segment(x) by {
        assert(sorted.contains(x));
        assert(all.contains(x));
        let k = choose|k: int| 0 <= k < all.len() && all[k] == x;
        if k < extra.len() {
            assert(all[k] == extra[k]);
        }
    }
    assert(all[extra.len() as int] == s.p1);
    assert(all[extra.len() as int + 1] == s.p2);
    assert(all.contains(s.p1));
    assert(all.contains(s.p2));
    assert(sorted.contains(lo) && sorted.contains(hi));
    assert(q.contains(lo) && q.contains(hi));
    assert(key(lo, bx) < key(hi, bx)) by {
        if key(s.p1, bx) == key(s.p2, bx) {
            lemma_key_injective(s, s.p1, s.p2);
        }
    }
    let ilo = choose|k: int| 0 <= k < q.len() && q[k] == lo;
    let ihi = choose|k: int| 0 <= k < q.len() && q[k] == hi;
    assert(q.len() >= 2) by {
        if q.len() < 2 {
            assert(ilo == 0 && ihi == 0);
        }
    }
    assert(q.contains(q[0]));
    assert(q.contains(q[q.len() - 1]));
    assert(q[0] == lo) by {
        assert(s.on_segment(q[0]));
        if ilo > 0 {
            assert(key(q[0], bx) <= key(q[ilo], bx));
        }
        lemma_key_injective(s, q[0], lo);
    }
    assert(q[q.len() - 1] == hi) by {
        assert(s.on_segment(q[q.len() - 1]));
        if ihi < q.len() - 1 {
            assert(key(q[ihi], bx) <= key(q[q.len() - 1], bx));
        }
        lemma_key_injective(s, q[q.len() - 1], hi);
    }
    assert forall|k: int| 0 <= k < q.len() - 1 implies key(#[trigger] q[k], bx) < key(q[k + 1], bx) by {
        assert(q.contains(q[k]));
        assert(q.contains(q[k + 1]));
        assert(key(q[k], bx) <= key(q[k + 1], bx));
        assert(q[k] != q[k + 1]);
        if key(q[k], bx) == key(q[k + 1], bx) {
            lemma_key_injective(s, q[k], q[k + 1]);
        }
    }
    let r = s.split_spec(extra);
    assert forall|k: int| 0 <= k < r.len() implies s.on_segment((#[trigger] r[k]).p1) && s.on_segment(
        r[k].p2,
    ) by {
        assert(q.contains(q[k]));
        assert(q.contains(q[k + 1]));
    }
    assert forall|k: int| 0 <= k < r.len() implies key((#[trigger] r[k]).p1, bx) < key(r[k].p2, bx) by {
        assert(key(q[k], bx) < key(q[k + 1], bx));
    }
}

/// The pieces of a split never have equal endpoints.
pub proof fn lemma_split_pieces_wf(s: Line, extra: Seq<Point>)
    ensures
        forall|k: int| 0 <= k < s.split_spec(extra).len() ==> (#[trigger] s.split_spec(extra)[k]).wf(),
{
    let sorted = sort_by_key(extra + seq![s.p1, s.p2], s.sorts_by_x());
    lemma_dedup(sorted, s.sorts_by_x());
}

} // verus!
