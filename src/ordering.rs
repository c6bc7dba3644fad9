use vstd::prelude::*;

use crate::point::Point;

verus! {

/// The coordinate that points are ordered by: `x` when `by_x`, else `y`.
pub open spec fn key(p: Point, by_x: bool) -> int {
    if by_x {
        p.x as int
    } else {
        p.y as int
    }
}

/// `s` with `p` inserted after every element whose key is not greater than
/// its own (`s` being ordered, the result is ordered and the sort stable).
pub open spec fn insert_sorted(s: Seq<Point>, p: Point, by_x: bool) -> Seq<Point>
    decreases s.len(),
{
    if s.len() == 0 {
        seq![p]
    } else if key(p, by_x) < key(s.last(), by_x) {
        insert_sorted(s.drop_last(), p, by_x).push(s.last())
    } else {
        s.push(p)
    }
}

/// The stable sort of `s` by key: points of equal key keep their order.
pub open spec fn sort_by_key(s: Seq<Point>, by_x: bool) -> Seq<Point>
    decreases s.len(),
{
    if s.len() == 0 {
        s
    } else {
        insert_sorted(sort_by_key(s.drop_last(), by_x), s.last(), by_x)
    }
}

/// `s` with every point that equals the one before it removed.
pub open spec fn dedup_adjacent(s: Seq<Point>) -> Seq<Point>
    decreases s.len(),
{
    if s.len() <= 1 {
        s
    } else if s[s.len() - 1] == s[s.len() - 2] {
        dedup_adjacent(s.drop_last())
    } else {
        dedup_adjacent(s.drop_last()).push(s.last())
    }
}

fn key_of(p: Point, by_x: bool) -> (r: i32)
    ensures
        r == key(p, by_x),
{
    if by_x {
        p.x
    } else {
        p.y
    }
}

/// Inserts `p` into `s` after every point whose key is not greater than its own.
fn insert_point(s: &mut Vec<Point>, p: Point, by_x: bool)
    ensures
        final(s)@ == insert_sorted(old(s)@, p, by_x),
{
    let ghost s0 = s@;
    let mut j: usize = s.len();
    assert(s0.take(j as int) =~= s0);
    assert(s0.skip(j as int) =~= Seq::<Point>::empty());
    while j > 0 && key_of(p, by_x) < key_of(s[j - 1], by_x)
        invariant
            s@ == s0,
            j <= s0.len(),
            insert_sorted(s0, p, by_x) == insert_sorted(s0.take(j as int), p, by_x) + s0.skip(
                j as int,
            ),
        decreases j,
    {
        let ghost t = s0.take(j as int);
        assert(t.drop_last() =~= s0.take(j - 1));
        assert(insert_sorted(t, p, by_x) == insert_sorted(s0.take(j - 1), p, by_x).push(s0[j - 1]));
        assert(insert_sorted(s0.take(j - 1), p, by_x).push(s0[j - 1]) + s0.skip(j as int)
            =~= insert_sorted(s0.take(j - 1), p, by_x) + s0.skip(j - 1));
        j -= 1;
    }
    proof {
        let t = s0.take(j as int);
        if j == 0 {
            assert(insert_sorted(t, p, by_x) == seq![p]);
        } else {
            assert(insert_sorted(t, p, by_x) == t.push(p));
        }
        assert(insert_sorted(t, p, by_x) + s0.skip(j as int) =~= s0.insert(j as int, p));
    }
    s.insert(j, p);
}

/// The points of `pts` in stable order of their `x` (when `by_x`) or `y` coordinate.
pub fn sort_points(pts: &Vec<Point>, by_x: bool) -> (r: Vec<Point>)
    ensures
        r@ == sort_by_key(pts@, by_x),
{
    let mut out: Vec<Point> = Vec::new();
    let mut i: usize = 0;
    assert(pts@.take(0) =~= Seq::<Point>::empty());
    while i < pts.len()
        invariant
            i <= pts.len(),
            out@ == sort_by_key(pts@.take(i as int), by_x),
        decreases pts.len() - i,
    {
        let p = pts[i];
        assert(pts@.take(i + 1).drop_last() =~= pts@.take(i as int));
        insert_point(&mut out, p, by_x);
        i += 1;
    }
    assert(pts@.take(pts.len() as int) =~= pts@);
    out
}

/// `pts` without the points that equal the point before them.
pub fn dedup_points(pts: &Vec<Point>) -> (r: Vec<Point>)
    ensures
        r@ == dedup_adjacent(pts@),
{
    let mut out: Vec<Point> = Vec::new();
    let mut i: usize = 0;
    assert(pts@.take(0) =~= Seq::<Point>::empty());
    while i < pts.len()
        invariant
            i <= pts.len(),
            out@ == dedup_adjacent(pts@.take(i as int)),
        decreases pts.len() - i,
    {
        let ghost t = pts@.take(i + 1);
        assert(t.drop_last() =~= pts@.take(i as int));
        if i == 0 || pts[i] != pts[i - 1] {
            proof {
                if i == 0 {
                    assert(dedup_adjacent(pts@.take(0)) =~= Seq::<Point>::empty());
                    assert(t =~= seq![pts@[0]]);
                }
            }
            out.push(pts[i]);
        }
        i += 1;
    }
    assert(pts@.take(pts.len() as int) =~= pts@);
    out
}

/// The keys of `s` never decrease.
pub open spec fn sorted_by_key(s: Seq<Point>, by_x: bool) -> bool {
    forall|i: int, j: int| 0 <= i < j < s.len() ==> key(#[trigger] s[i], by_x) <= key(#[trigger] s[j], by_x)
}

pub proof fn lemma_insert_sorted(s: Seq<Point>, p: Point, by_x: bool)
    ensures
        insert_sorted(s, p, by_x).len() == s.len() + 1,
        forall|x: Point| #[trigger] insert_sorted(s, p, by_x).contains(x) <==> (s.contains(x) || x == p),
        sorted_by_key(s, by_x) ==> sorted_by_key(insert_sorted(s, p, by_x), by_x),
    decreases s.len(),
{
    let r = insert_sorted(s, p, by_x);
    if s.len() == 0 {
        assert forall|x: Point| #[trigger] r.contains(x) <==> (s.contains(x) || x == p) by {
            if x == p {
                assert(r[0] == p);
            }
        }
    } else if key(p, by_x) < key(s.last(), by_x) {
        let d = s.drop_last();
        let m = insert_sorted(d, p, by_x);
        lemma_insert_sorted(d, p, by_x);
        assert(r == m.push(s.last()));
        assert forall|x: Point| #[trigger] r.contains(x) <==> (s.contains(x) || x == p) by {
            if r.contains(x) {
                let k = choose|k: int| 0 <= k < r.len() && r[k] == x;
                if k < m.len() {
                    assert(m[k] == x);
                    assert(m.contains(x));
                    if d.contains(x) {
                        let k2 = choose|k2: int| 0 <= k2 < d.len() && d[k2] == x;
                        assert(s[k2] == x);
                    }
                } else {
                    assert(s[s.len() - 1] == x);
                }
            }
            if s.contains(x) {
                let k = choose|k: int| 0 <= k < s.len() && s[k] == x;
                if k < s.len() - 1 {
                    assert(d[k] == x);
                    assert(m.contains(x));
                    let k2 = choose|k2: int| 0 <= k2 < m.len() && m[k2] == x;
                    assert(r[k2] == x);
                } else {
                    assert(r[r.len() - 1] == x);
                }
            }
            if x == p {
                assert(m.contains(p));
                let k2 = choose|k2: int| 0 <= k2 < m.len() && m[k2] == p;
                assert(r[k2] == p);
            }
        }
        if sorted_by_key(s, by_x) {
            assert(sorted_by_key(d, by_x)) by {
                assert forall|i: int, j: int| 0 <= i < j < d.len() implies key(#[trigger] d[i], by_x) <= key(
                    #[trigger] d[j],
                    by_x,
                ) by {
                    assert(d[i] == s[i] && d[j] == s[j]);
                }
            }
            assert forall|i: int, j: int| 0 <= i < j < r.len() implies key(#[trigger] r[i], by_x) <= key(
                #[trigger] r[j],
                by_x,
            ) by {
                if j == r.len() - 1 {
                    let x = r[i];
                    assert(m[i] == x);
                    assert(m.contains(x));
                    if d.contains(x) {
                        let k2 = choose|k2: int| 0 <= k2 < d.len() && d[k2] == x;
                        assert(s[k2] == x);
                        assert(key(s[k2], by_x) <= key(s[s.len() - 1], by_x));
                    }
                } else {
                    assert(r[i] == m[i] && r[j] == m[j]);
                }
            }
        }
    } else {
        assert(r == s.push(p));
        assert forall|x: Point| #[trigger] r.contains(x) <==> (s.contains(x) || x == p) by {
            if r.contains(x) {
                let k = choose|k: int| 0 <= k < r.len() && r[k] == x;
                if k < s.len() {
                    assert(s[k] == x);
                }
            }
            if s.contains(x) {
                let k = choose|k: int| 0 <= k < s.len() && s[k] == x;
                assert(r[k] == x);
            }
            if x == p {
                assert(r[s.len() as int] == p);
            }
        }
        if sorted_by_key(s, by_x) {
            assert forall|i: int, j: int| 0 <= i < j < r.len() implies key(#[trigger] r[i], by_x) <= key(
                #[trigger] r[j],
                by_x,
            ) by {
                if j == r.len() - 1 {
                    assert(key(s[i], by_x) <= key(s[s.len() - 1], by_x) || i == s.len() - 1);
                } else {
                    assert(r[i] == s[i] && r[j] == s[j]);
                }
            }
        }
    }
}

/// Sorting keeps the points and orders them by key.
pub proof fn lemma_sort(s: Seq<Point>, by_x: bool)
    ensures
        sort_by_key(s, by_x).len() == s.len(),
        forall|x: Point| #[trigger] sort_by_key(s, by_x).contains(x) <==> s.contains(x),
        sorted_by_key(sort_by_key(s, by_x), by_x),
    decreases s.len(),
{
    if s.len() > 0 {
        let d = s.drop_last();
        lemma_sort(d, by_x);
        lemma_insert_sorted(sort_by_key(d, by_x), s.last(), by_x);
        assert forall|x: Point| #[trigger] sort_by_key(s, by_x).contains(x) <==> s.contains(x) by {
            if s.contains(x) {
                let k = choose|k: int| 0 <= k < s.len() && s[k] == x;
                if k < s.len() - 1 {
                    assert(d[k] == x);
                    assert(d.contains(x));
                }
            }
            if d.contains(x) {
                let k = choose|k: int| 0 <= k < d.len() && d[k] == x;
                assert(s[k] == x);
            }
        }
    }
}

/// Removing repeats keeps the points, the order by key and the last point,
/// and leaves no point next to an equal one.
pub proof fn lemma_dedup(s: Seq<Point>, by_x: bool)
    ensures
        forall|x: Point| #[trigger] dedup_adjacent(s).contains(x) <==> s.contains(x),
        sorted_by_key(s, by_x) ==> sorted_by_key(dedup_adjacent(s), by_x),
        forall|i: int|
            0 <= i < dedup_adjacent(s).len() - 1 ==> #[trigger] dedup_adjacent(s)[i] != dedup_adjacent(
                s,
            )[i + 1],
        s.len() >= 1 ==> dedup_adjacent(s).len() >= 1 && dedup_adjacent(s).last() == s.last(),
    decreases s.len(),
{
    let r = dedup_adjacent(s);
    if s.len() <= 1 {
        if s.len() == 1 {
            assert(r == s);
        }
    } else {
        let d = s.drop_last();
        let m = dedup_adjacent(d);
        lemma_dedup(d, by_x);
        assert(d.last() == s[s.len() - 2]);
        if sorted_by_key(s, by_x) {
            assert forall|i: int, j: int| 0 <= i < j < d.len() implies key(#[trigger] d[i], by_x) <= key(
                #[trigger] d[j],
                by_x,
            ) by {
                assert(d[i] == s[i] && d[j] == s[j]);
            }
        }
        if s[s.len() - 1] == s[s.len() - 2] {
            assert(r == m);
            assert forall|x: Point| #[trigger] r.contains(x) <==> s.contains(x) by {
                if s.contains(x) {
                    let k = choose|k: int| 0 <= k < s.len() && s[k] == x;
                    if k < s.len() - 1 {
                        assert(d[k] == x);
                    } else {
                        assert(d[s.len() - 2] == x);
                    }
                    assert(d.contains(x));
                }
                if d.contains(x) {
                    let k = choose|k: int| 0 <= k < d.len() && d[k] == x;
                    assert(s[k] == x);
                }
            }
        } else {
            assert(r == m.push(s.last()));
            assert forall|x: Point| #[trigger] r.contains(x) <==> s.contains(x) by {
                if s.contains(x) {
                    let k = choose|k: int| 0 <= k < s.len() && s[k] == x;
                    if k < s.len() - 1 {
                        assert(d[k] == x);
                        assert(d.contains(x));
                        assert(m.contains(x));
                        let k2 = choose|k2: int| 0 <= k2 < m.len() && m[k2] == x;
                        assert(r[k2] == x);
                    } else {
                        assert(r[r.len() - 1] == x);
                    }
                }
                if r.contains(x) {
                    let k = choose|k: int| 0 <= k < r.len() && r[k] == x;
                    if k < m.len() {
                        assert(m[k] == x);
                        assert(m.contains(x));
                        let k2 = choose|k2: int| 0 <= k2 < d.len() && d[k2] == x;
                        assert(s[k2] == x);
                    } else {
                        assert(s[s.len() - 1] == x);
                    }
                }
            }
            assert forall|i: int| 0 <= i < r.len() - 1 implies #[trigger] r[i] != r[i + 1] by {
                if i == r.len() - 2 {
                    assert(r[i] == m.last());
                } else {
                    assert(r[i] == m[i] && r[i + 1] == m[i + 1]);
                }
            }
            if sorted_by_key(s, by_x) {
                assert forall|i: int, j: int| 0 <= i < j < r.len() implies key(#[trigger] r[i], by_x) <= key(
                    #[trigger] r[j],
                    by_x,
                ) by {
                    if j == r.len() - 1 {
                        let x = r[i];
                        assert(m[i] == x);
                        assert(m.contains(x));
                        let k2 = choose|k2: int| 0 <= k2 < d.len() && d[k2] == x;
                        assert(s[k2] == x);
                    } else {
                        assert(r[i] == m[i] && r[j] == m[j]);
                    }
                }
            }
        }
    }
}

} // verus!
