use vstd::prelude::*;

use crate::arc::{arc_from_text, arc_text, lemma_arc_round_trip, lemma_arc_text_kind, Arc};
use crate::decimal::{dec_digits, index_of, lemma_index_of_append, push_dec};
use crate::line::{lemma_split_pieces_wf, overlap_of, Line};
use crate::nfl::{lemma_line_round_trip, lemma_line_text_ends, line_from_text, line_text};
use crate::point::Point;
use crate::text::{
    chars_of, find_word, free_of, has_word, push_str, string_of, trim, trim_chars, trim_end_of,
    trim_end_vec,
};

verus! {

/// One layer of the drawing: its level, metadata pairs in the order they were
/// read (keys unique), its segments and its arcs.
pub struct Part {
    pub level: u64,
    pub data: Vec<(String, String)>,
    pub lines: Vec<Line>,
    pub arcs: Vec<Arc>,
}

/// The points at which `l` is to be split, gathered from each segment of
/// `others` in turn: the two ends of their shared span, where there is one.
/// `l` is the first argument of the overlap test when `first` holds, the
/// second otherwise.
pub open spec fn pending_splits(l: Line, others: Seq<Line>, tol: int, first: bool) -> Seq<Point>
    decreases others.len(),
{
    if others.len() == 0 {
        seq![]
    } else {
        let prev = pending_splits(l, others.drop_last(), tol, first);
        let found = if first {
            overlap_of(l, others.last(), tol)
        } else {
            overlap_of(others.last(), l, tol)
        };
        match found {
            Some(pq) => prev + seq![pq.0, pq.1],
            None => prev,
        }
    }
}

/// The pending split points of each segment of `lines` against `others`.
pub open spec fn pending_all(lines: Seq<Line>, others: Seq<Line>, tol: int, first: bool) -> Seq<
    Seq<Point>,
> {
    Seq::new(lines.len(), |i: int| pending_splits(lines[i], others, tol, first))
}

/// The segments of `lines` that have no pending split point, in order.
pub open spec fn untouched(lines: Seq<Line>, pend: Seq<Seq<Point>>) -> Seq<Line>
    decreases lines.len(),
{
    if lines.len() == 0 {
        seq![]
    } else {
        let r = untouched(lines.drop_last(), pend);
        if pend[lines.len() - 1].len() == 0 {
            r.push(lines.last())
        } else {
            r
        }
    }
}

/// The pieces of the segments of `lines` that have pending split points, in
/// the order of those segments.
pub open spec fn replacements(lines: Seq<Line>, pend: Seq<Seq<Point>>) -> Seq<Line>
    decreases lines.len(),
{
    if lines.len() == 0 {
        seq![]
    } else {
        let r = replacements(lines.drop_last(), pend);
        if pend[lines.len() - 1].len() == 0 {
            r
        } else {
            r + lines.last().split_spec(pend[lines.len() - 1])
        }
    }
}

/// `lines` after applying the pending splits `pend`: the segments left alone
/// keep their order, and the pieces of the split ones follow them.
pub open spec fn rebuild(lines: Seq<Line>, pend: Seq<Seq<Point>>) -> Seq<Line> {
    untouched(lines, pend) + replacements(lines, pend)
}

/// Applies the pending split points `splits[k]` of each segment `lines[k]`.
fn rebuild_lines(lines: &Vec<Line>, splits: Vec<Vec<Point>>, max_dist: i32) -> (r: Vec<Line>)
    requires
        splits@.len() == lines@.len(),
    ensures
        r@ == rebuild(lines@, splits@.map_values(|v: Vec<Point>| v@)),
{
    let ghost pend = splits@.map_values(|v: Vec<Point>| v@);
    let mut splits = splits;
    let mut kept: Vec<Line> = Vec::new();
    let mut added: Vec<Line> = Vec::new();
    let mut k: usize = 0;
    while k < lines.len()
        invariant
            k <= lines@.len(),
            splits@.len() == lines@.len(),
            forall|m: int| k <= m < lines@.len() ==> #[trigger] splits@[m]@ == pend[m],
            pend.len() == lines@.len(),
            kept@ == untouched(lines@.take(k as int), pend),
            added@ == replacements(lines@.take(k as int), pend),
        decreases lines@.len() - k,
    {
        let ghost t = lines@.take(k + 1);
        assert(t.drop_last() =~= lines@.take(k as int));
        if splits[k].len() == 0 {
            kept.push(lines[k]);
        } else {
            let mut mine: Vec<Point> = Vec::new();
            std::mem::swap(&mut mine, &mut splits[k]);
            let mut pieces = lines[k].split(mine, max_dist);
            added.append(&mut pieces);
        }
        k += 1;
    }
    assert(lines@.take(lines@.len() as int) =~= lines@);
    kept.append(&mut added);
    kept
}

impl Part {
    /// Removes the overlaps between the segments of `a` and those of `b`.
    /// Every pair of segments is compared first; only then is each segment
    /// that shares a span with a partner replaced by its pieces, split at the
    /// ends of all the spans it shares.
    pub fn resolve_overlaps(a: &mut Part, b: &mut Part, max_dist: i32)
        ensures
            final(a).lines@ == rebuild(
                old(a).lines@,
                pending_all(old(a).lines@, old(b).lines@, max_dist as int, true),
            ),
            final(b).lines@ == rebuild(
                old(b).lines@,
                pending_all(old(b).lines@, old(a).lines@, max_dist as int, false),
            ),
            final(a).level == old(a).level,
            final(a).data@ == old(a).data@,
            final(a).arcs@ == old(a).arcs@,
            final(b).level == old(b).level,
            final(b).data@ == old(b).data@,
            final(b).arcs@ == old(b).arcs@,
            all_wf(old(a).lines@) ==> all_wf(final(a).lines@),
            all_wf(old(b).lines@) ==> all_wf(final(b).lines@),
    {
        let ghost la = a.lines@;
        let ghost lb = b.lines@;
        let ghost tol = max_dist as int;
        let mut a_splits: Vec<Vec<Point>> = Vec::new();
        let mut b_splits: Vec<Vec<Point>> = Vec::new();
        let mut k: usize = 0;
        while k < a.lines.len()
            invariant
                k <= la.len(),
                a.lines@ == la,
                a_splits@.len() == k,
                forall|m: int| 0 <= m < k ==> (#[trigger] a_splits@[m])@ == Seq::<Point>::empty(),
            decreases la.len() - k,
        {
            a_splits.push(Vec::new());
            k += 1;
        }
        k = 0;
        while k < b.lines.len()
            invariant
                k <= lb.len(),
                b.lines@ == lb,
                b_splits@.len() == k,
                forall|m: int| 0 <= m < k ==> (#[trigger] b_splits@[m])@ == Seq::<Point>::empty(),
            decreases lb.len() - k,
        {
            b_splits.push(Vec::new());
            k += 1;
        }
        assert(forall|m: int|
            0 <= m < lb.len() ==> (#[trigger] b_splits@[m])@ == pending_splits(
                lb[m],
                la.take(0),
                tol,
                false,
            ));
        let mut i: usize = 0;
        while i < a.lines.len()
            invariant
                i <= la.len(),
                tol == max_dist as int,
                a.lines@ == la,
                b.lines@ == lb,
                a_splits@.len() == la.len(),
                b_splits@.len() == lb.len(),
                forall|m: int|
                    0 <= m < i ==> (#[trigger] a_splits@[m])@ == pending_splits(
                        la[m],
                        lb,
                        tol,
                        true,
                    ),
                forall|m: int| i <= m < la.len() ==> (#[trigger] a_splits@[m])@ == Seq::<
                    Point,
                >::empty(),
                forall|m: int|
                    0 <= m < lb.len() ==> (#[trigger] b_splits@[m])@ == pending_splits(
                        lb[m],
                        la.take(i as int),
                        tol,
                        false,
                    ),
            decreases la.len() - i,
        {
            let mut j: usize = 0;
            assert(lb.take(0) =~= Seq::<Line>::empty());
            while j < b.lines.len()
                invariant
                    i < la.len(),
                    j <= lb.len(),
                    tol == max_dist as int,
                    a.lines@ == la,
                    b.lines@ == lb,
                    a_splits@.len() == la.len(),
                    b_splits@.len() == lb.len(),
                    forall|m: int|
                        0 <= m < i ==> (#[trigger] a_splits@[m])@ == pending_splits(
                            la[m],
                            lb,
                            tol,
                            true,
                        ),
                    a_splits@[i as int]@ == pending_splits(la[i as int], lb.take(j as int), tol, true),
                    forall|m: int| i < m < la.len() ==> (#[trigger] a_splits@[m])@ == Seq::<
                        Point,
                    >::empty(),
                    forall|m: int|
                        0 <= m < j ==> (#[trigger] b_splits@[m])@ == pending_splits(
                            lb[m],
                            la.take(i + 1),
                            tol,
                            false,
                        ),
                    forall|m: int|
                        j <= m < lb.len() ==> (#[trigger] b_splits@[m])@ == pending_splits(
                            lb[m],
                            la.take(i as int),
                            tol,
                            false,
                        ),
                decreases lb.len() - j,
            {
                let found = Line::find_overlaps(&a.lines[i], &b.lines[j], max_dist);
                proof {
                    let ta = lb.take(j + 1);
                    let tb = la.take(i + 1);
                    assert(ta.drop_last() =~= lb.take(j as int));
                    assert(tb.drop_last() =~= la.take(i as int));
                    assert(ta.last() == lb[j as int]);
                    assert(tb.last() == la[i as int]);
                    assert(found == overlap_of(la[i as int], lb[j as int], tol));
                    assert(pending_splits(la[i as int], ta, tol, true) == match found {
                        Some(pq) => pending_splits(la[i as int], lb.take(j as int), tol, true)
                            + seq![pq.0, pq.1],
                        None => pending_splits(la[i as int], lb.take(j as int), tol, true),
                    });
                    assert(pending_splits(lb[j as int], tb, tol, false) == match found {
                        Some(pq) => pending_splits(lb[j as int], la.take(i as int), tol, false)
                            + seq![pq.0, pq.1],
                        None => pending_splits(lb[j as int], la.take(i as int), tol, false),
                    });
                }
                if let Some((p, q)) = found {
                    let ghost sa = a_splits@[i as int]@;
                    let ghost sb = b_splits@[j as int]@;
                    a_splits[i].push(p);
                    a_splits[i].push(q);
                    b_splits[j].push(p);
                    b_splits[j].push(q);
                    assert(a_splits@[i as int]@ =~= sa + seq![p, q]);
                    assert(b_splits@[j as int]@ =~= sb + seq![p, q]);
                }
                j += 1;
            }
            assert(lb.take(lb.len() as int) =~= lb);
            i += 1;
        }
        assert(la.take(la.len() as int) =~= la);
        assert(splits_view(a_splits@) =~= pending_all(la, lb, tol, true));
        assert(splits_view(b_splits@) =~= pending_all(lb, la, tol, false));
        proof {
            if all_wf(la) {
                lemma_rebuild_wf(la, pending_all(la, lb, tol, true));
            }
            if all_wf(lb) {
                lemma_rebuild_wf(lb, pending_all(lb, la, tol, false));
            }
        }
        a.lines = rebuild_lines(&a.lines, a_splits, max_dist);
        b.lines = rebuild_lines(&b.lines, b_splits, max_dist);
    }
}

pub open spec fn splits_view(s: Seq<Vec<Point>>) -> Seq<Seq<Point>> {
    s.map_values(|v: Vec<Point>| v@)
}

/// No segment of `lines` shares a span with a segment of `others`, testing
/// each pair with the segment of `lines` first.
pub open spec fn disjoint_lines(lines: Seq<Line>, others: Seq<Line>, tol: int) -> bool {
    forall|x: int, y: int|
        0 <= x < lines.len() && 0 <= y < others.len() ==> #[trigger] overlap_of(
            lines[x],
            others[y],
            tol,
        ) is None
}

proof fn lemma_no_pending(l: Line, others: Seq<Line>, tol: int, first: bool)
    requires
        forall|y: int|
            0 <= y < others.len() ==> (if first {
                overlap_of(l, #[trigger] others[y], tol)
            } else {
                overlap_of(#[trigger] others[y], l, tol)
            }) is None,
    ensures
        pending_splits(l, others, tol, first) == Seq::<Point>::empty(),
    decreases others.len(),
{
    if others.len() > 0 {
        let rest = others.drop_last();
        assert forall|y: int| 0 <= y < rest.len() implies (if first {
            overlap_of(l, #[trigger] rest[y], tol)
        } else {
            overlap_of(#[trigger] rest[y], l, tol)
        }) is None by {
            assert(rest[y] == others[y]);
        }
        lemma_no_pending(l, rest, tol, first);
        assert(others.last() == others[others.len() - 1]);
    }
}

proof fn lemma_rebuild_nothing(lines: Seq<Line>, pend: Seq<Seq<Point>>)
    requires
        pend.len() >= lines.len(),
        forall|k: int| 0 <= k < lines.len() ==> (#[trigger] pend[k]).len() == 0,
    ensures
        untouched(lines, pend) == lines,
        replacements(lines, pend) == Seq::<Line>::empty(),
        rebuild(lines, pend) == lines,
    decreases lines.len(),
{
    if lines.len() > 0 {
        lemma_rebuild_nothing(lines.drop_last(), pend);
        assert(pend[lines.len() - 1].len() == 0);
        assert(lines.drop_last().push(lines.last()) =~= lines);
    }
    assert(rebuild(lines, pend) =~= lines);
}

/// Resolving two parts whose segments share no span leaves the segments of
/// both exactly as they were.
pub proof fn lemma_resolve_disjoint(a: Seq<Line>, b: Seq<Line>, tol: int)
    requires
        disjoint_lines(a, b, tol),
    ensures
        rebuild(a, pending_all(a, b, tol, true)) == a,
        rebuild(b, pending_all(b, a, tol, false)) == b,
{
    assert forall|x: int| 0 <= x < a.len() implies (#[trigger] pending_all(a, b, tol, true)[x]).len()
        == 0 by {
        assert forall|y: int| 0 <= y < b.len() implies overlap_of(a[x], #[trigger] b[y], tol) is None by {
            assert(overlap_of(a[x], b[y], tol) is None);
        }
        lemma_no_pending(a[x], b, tol, true);
    }
    lemma_rebuild_nothing(a, pending_all(a, b, tol, true));
    assert forall|y: int| 0 <= y < b.len() implies (#[trigger] pending_all(b, a, tol, false)[y]).len()
        == 0 by {
        assert forall|x: int| 0 <= x < a.len() implies overlap_of(#[trigger] a[x], b[y], tol) is None by {
            assert(overlap_of(a[x], b[y], tol) is None);
        }
        lemma_no_pending(b[y], a, tol, false);
    }
    lemma_rebuild_nothing(b, pending_all(b, a, tol, false));
}

/// Metadata pairs, segments and arcs read so far.
pub type Contents = (Seq<(Seq<char>, Seq<char>)>, Seq<Line>, Seq<Arc>);

/// The views of a part's metadata pairs.
pub open spec fn pairs_view(d: Seq<(String, String)>) -> Seq<(Seq<char>, Seq<char>)> {
    d.map_values(|p: (String, String)| (p.0@, p.1@))
}

/// The views of a sequence of strings.
pub open spec fn strings_view(d: Seq<String>) -> Seq<Seq<char>> {
    d.map_values(|s: String| s@)
}

/// The record that begins with text `acc`, whose last line so far is line
/// `i`: while it ends in `$`, the `$`s are dropped and the next line, trimmed
/// of white space, is appended. Gives the record and the index of its last
/// line; `None` when the last line of `data` ends in `$`.
pub open spec fn join_record(data: Seq<Seq<char>>, acc: Seq<char>, i: int) -> Option<
    (Seq<char>, int),
>
    decreases data.len() - i,
{
    if acc.len() > 0 && acc.last() == '$' {
        if 0 <= i && i + 1 < data.len() {
            join_record(data, trim_end_of(acc, '$') + trim(data[i + 1]), i + 1)
        } else {
            None
        }
    } else {
        Some((acc, i))
    }
}

/// The position of the pair with key `k` in `d`, or its length.
pub open spec fn key_pos(d: Seq<(Seq<char>, Seq<char>)>, k: Seq<char>) -> int
    decreases d.len(),
{
    if d.len() == 0 {
        0
    } else if d[0].0 == k {
        0
    } else {
        1 + key_pos(d.drop_first(), k)
    }
}

/// No two pairs of `d` have the same key.
pub open spec fn keys_unique(d: Seq<(Seq<char>, Seq<char>)>) -> bool {
    forall|a: int, b: int| 0 <= a < b < d.len() ==> (#[trigger] d[a]).0 != (#[trigger] d[b]).0
}

proof fn lemma_key_pos(d: Seq<(Seq<char>, Seq<char>)>, k: Seq<char>)
    ensures
        0 <= key_pos(d, k) <= d.len(),
        key_pos(d, k) < d.len() ==> d[key_pos(d, k)].0 == k,
        forall|i: int| 0 <= i < key_pos(d, k) ==> d[i].0 != k,
    decreases d.len(),
{
    if d.len() > 0 && d[0].0 != k {
        lemma_key_pos(d.drop_first(), k);
        assert forall|i: int| 0 <= i < key_pos(d, k) implies d[i].0 != k by {
            if i > 0 {
                assert(d.drop_first()[i - 1] == d[i]);
            }
        }
    }
}

/// Setting a key keeps the keys unique.
pub proof fn lemma_meta_insert_unique(d: Seq<(Seq<char>, Seq<char>)>, k: Seq<char>, v: Seq<char>)
    requires
        keys_unique(d),
    ensures
        keys_unique(meta_insert(d, k, v)),
{
    lemma_key_pos(d, k);
    let r = meta_insert(d, k, v);
    let p = key_pos(d, k);
    assert forall|a: int, b: int| 0 <= a < b < r.len() implies (#[trigger] r[a]).0 != (
    #[trigger] r[b]).0 by {
        if p < d.len() {
            assert(r[a].0 == d[a].0 && r[b].0 == d[b].0);
        } else if b == d.len() {
            assert(r[a] == d[a]);
        } else {
            assert(r[a] == d[a] && r[b] == d[b]);
        }
    }
}

/// `d` with key `k` set to `v`: in place when the key is there, at the end otherwise.
pub open spec fn meta_insert(d: Seq<(Seq<char>, Seq<char>)>, k: Seq<char>, v: Seq<char>) -> Seq<
    (Seq<char>, Seq<char>),
> {
    let p = key_pos(d, k);
    if 0 <= p < d.len() {
        d.update(p, (k, v))
    } else {
        d.push((k, v))
    }
}

pub open spec fn word_line() -> Seq<char> {
    seq!['L', 'I', 'N', 'E', '/']
}

pub open spec fn word_circle() -> Seq<char> {
    seq!['C', 'I', 'R', 'C', 'L', 'E', '/']
}

/// `c` with one record added: a record holding `LINE/` is a segment, one
/// holding `CIRCLE/` an arc, and any other a metadata pair split at its
/// first `/`. `None` when the record cannot be read.
pub open spec fn add_record(c: Contents, rec: Seq<char>) -> Option<Contents> {
    if has_word(rec, word_line()) {
        match line_from_text(rec) {
            Some(l) => Some((c.0, c.1.push(l), c.2)),
            None => None,
        }
    } else if has_word(rec, word_circle()) {
        match arc_from_text(rec) {
            Some(a) => Some((c.0, c.1, c.2.push(a))),
            None => None,
        }
    } else {
        let p = index_of(rec, '/');
        if p < rec.len() {
            Some((meta_insert(c.0, rec.take(p), rec.skip(p + 1)), c.1, c.2))
        } else {
            None
        }
    }
}

/// `c` with the records that begin at line `i` of `data` added in order.
pub open spec fn read_records(data: Seq<Seq<char>>, i: int, c: Contents) -> Option<Contents>
    decreases data.len() - i,
{
    if i < 0 || i >= data.len() {
        Some(c)
    } else {
        match join_record(data, data[i], i) {
            None => None,
            Some(rj) => if rj.1 < i || rj.1 >= data.len() {
                None
            } else {
                match add_record(c, rj.0) {
                    None => None,
                    Some(c2) => read_records(data, rj.1 + 1, c2),
                }
            },
        }
    }
}

/// What the lines of a part hold, read from its first line on.
pub open spec fn part_contents(data: Seq<Seq<char>>) -> Option<Contents> {
    read_records(data, 0, (seq![], seq![], seq![]))
}

/// Sets metadata key `k` to `v` (see `meta_insert`).
fn insert_pair(d: &mut Vec<(String, String)>, k: String, v: String)
    ensures
        pairs_view(final(d)@) == meta_insert(pairs_view(old(d)@), k@, v@),
{
    let ghost d0 = pairs_view(d@);
    let mut p: usize = 0;
    assert(d0.skip(0) =~= d0);
    while p < d.len() && d[p].0 != k
        invariant
            p <= d@.len(),
            pairs_view(d@) == d0,
            d@ == old(d)@,
            key_pos(d0, k@) == p + key_pos(d0.skip(p as int), k@),
        decreases d@.len() - p,
    {
        assert(d0.skip(p as int).drop_first() =~= d0.skip(p + 1));
        p += 1;
    }
    if p < d.len() {
        assert(key_pos(d0.skip(p as int), k@) == 0);
        d.set(p, (k, v));
        assert(pairs_view(d@) =~= d0.update(p as int, (k@, v@)));
    } else {
        assert(d0.skip(p as int) =~= Seq::<(Seq<char>, Seq<char>)>::empty());
        d.push((k, v));
        assert(pairs_view(d@) =~= d0.push((k@, v@)));
    }
}

impl Part {
    /// Reads a part of level `level` from its lines, as they stand in the
    /// drawing file: records continued over several lines with `$` are
    /// joined, then each is read as a segment, an arc or a metadata pair
    /// (see `read_records`). `None` when a record cannot be read.
    pub fn new(level: u64, data: Vec<String>) -> (r: Option<Part>)
        ensures
            match r {
                Some(p) => {
                    &&& p.level == level
                    &&& keys_unique(pairs_view(p.data@))
                    &&& part_contents(strings_view(data@)) == Some(
                        (pairs_view(p.data@), p.lines@, p.arcs@),
                    )
                },
                None => part_contents(strings_view(data@)) is None,
            },
    {
        let ghost dv = strings_view(data@);
        let mut result = Part { level, data: Vec::new(), lines: Vec::new(), arcs: Vec::new() };
        proof {
            reveal_strlit("LINE/");
            reveal_strlit("CIRCLE/");
            assert("LINE/"@ =~= word_line());
            assert("CIRCLE/"@ =~= word_circle());
            assert(pairs_view(result.data@) =~= Seq::<(Seq<char>, Seq<char>)>::empty());
        }
        let mut i: usize = 0;
        while i < data.len()
            invariant
                i <= data@.len(),
                dv == strings_view(data@),
                result.level == level,
                keys_unique(pairs_view(result.data@)),
                "LINE/"@ == word_line(),
                "CIRCLE/"@ == word_circle(),
                part_contents(dv) == read_records(
                    dv,
                    i as int,
                    (pairs_view(result.data@), result.lines@, result.arcs@),
                ),
            decreases data@.len() - i,
        {
            let ghost i0 = i as int;
            let ghost c = (pairs_view(result.data@), result.lines@, result.arcs@);
            let mut line = chars_of(data[i].as_str());
            while line.len() > 0 && line[line.len() - 1] == '$'
                invariant
                    0 <= i0 <= i < data@.len(),
                    dv == strings_view(data@),
                    dv.len() == data@.len(),
                    c == (pairs_view(result.data@), result.lines@, result.arcs@),
                    keys_unique(pairs_view(result.data@)),
                    part_contents(dv) == read_records(dv, i0, c),
                    join_record(dv, dv[i0], i0) == join_record(dv, line@, i as int),
                decreases data@.len() - i,
            {
                if data.len() - i <= 1 {
                    assert(line@.last() == '$');
                    assert(join_record(dv, line@, i as int) is None);
                    assert(read_records(dv, i0, c) is None);
                    return None;
                }
                trim_end_vec(&mut line, '$');
                i += 1;
                let next = chars_of(data[i].as_str());
                let mut t = trim_chars(&next);
                line.append(&mut t);
            }
            assert(join_record(dv, dv[i0], i0) == Some((line@, i as int)));
            if find_word(&line, "LINE/") {
                match Line::from_nfl(string_of(&line).as_str()) {
                    Some(l) => result.lines.push(l),
                    None => {
                        return None;
                    },
                }
            } else if find_word(&line, "CIRCLE/") {
                match Arc::new(string_of(&line).as_str()) {
                    Some(a) => result.arcs.push(a),
                    None => {
                        return None;
                    },
                }
            } else {
                let mut p: usize = 0;
                assert(line@.skip(0) =~= line@);
                while p < line.len() && line[p] != '/'
                    invariant
                        p <= line@.len(),
                        index_of(line@, '/') == p + index_of(line@.skip(p as int), '/'),
                    decreases line@.len() - p,
                {
                    assert(line@.skip(p as int).drop_first() =~= line@.skip(p + 1));
                    p += 1;
                }
                if p >= line.len() {
                    assert(line@.skip(p as int) =~= Seq::<char>::empty());
                    return None;
                }
                let mut key: Vec<char> = Vec::new();
                let mut value: Vec<char> = Vec::new();
                let mut k: usize = 0;
                while k < line.len()
                    invariant
                        p < line@.len(),
                        k <= line@.len(),
                        key@ == line@.take(if k < p {
                            k as int
                        } else {
                            p as int
                        }),
                        value@ == (if k <= p + 1 {
                            Seq::<char>::empty()
                        } else {
                            line@.subrange(p + 1, k as int)
                        }),
                    decreases line@.len() - k,
                {
                    if k < p {
                        key.push(line[k]);
                        assert(key@ =~= line@.take(k + 1));
                    } else if k > p {
                        value.push(line[k]);
                        assert(value@ =~= line@.subrange(p + 1, k + 1));
                    }
                    k += 1;
                }
                assert(value@ =~= line@.skip(p + 1));
                let key = string_of(&key);
                let value = string_of(&value);
                proof {
                    lemma_meta_insert_unique(pairs_view(result.data@), key@, value@);
                }
                insert_pair(&mut result.data, key, value);
            }
            assert(add_record(c, line@) == Some(
                (pairs_view(result.data@), result.lines@, result.arcs@),
            ));
            i += 1;
        }
        Some(result)
    }
}

/// The metadata lines `key/value`, each ended by a newline.
pub open spec fn meta_text(d: Seq<(Seq<char>, Seq<char>)>) -> Seq<char>
    decreases d.len(),
{
    if d.len() == 0 {
        seq![]
    } else {
        meta_text(d.drop_last()) + d.last().0 + seq!['/'] + d.last().1 + seq!['\n']
    }
}

/// The LINE records of `ls`, numbered from `id` on, each ended by a newline.
pub open spec fn lines_text(ls: Seq<Line>, id: nat) -> Seq<char>
    decreases ls.len(),
{
    if ls.len() == 0 {
        seq![]
    } else {
        lines_text(ls.drop_last(), id) + line_text(ls.last(), (id + ls.len() - 1) as nat) + seq![
            '\n',
        ]
    }
}

/// The CIRCLE records of `arcs`, numbered from `id` on, each ended by a newline.
pub open spec fn arcs_text(arcs: Seq<Arc>, id: nat) -> Seq<char>
    decreases arcs.len(),
{
    if arcs.len() == 0 {
        seq![]
    } else {
        arcs_text(arcs.drop_last(), id) + arc_text(arcs.last(), (id + arcs.len() - 1) as nat)
            + seq!['\n']
    }
}

/// The text of a part whose first record gets identifier `id`: its
/// `LEVEL/` line, its metadata, then its segments and its arcs, numbered on
/// from `id`.
pub open spec fn part_text(p: Part, id: nat) -> Seq<char> {
    seq!['L', 'E', 'V', 'E', 'L', '/'] + dec_digits(p.level as nat) + seq!['\n'] + meta_text(
        pairs_view(p.data@),
    ) + lines_text(p.lines@, id) + arcs_text(p.arcs@, id + p.lines@.len())
}

/// The number of records of a part that get an identifier.
pub open spec fn record_count(p: Part) -> nat {
    p.lines@.len() + p.arcs@.len()
}

fn push_meta(data: &Vec<(String, String)>, out: &mut Vec<char>)
    ensures
        final(out)@ == old(out)@ + meta_text(pairs_view(data@)),
{
    let ghost head = out@;
    let ghost d = pairs_view(data@);
    let mut k: usize = 0;
    assert(d.take(0) =~= Seq::<(Seq<char>, Seq<char>)>::empty());
    while k < data.len()
        invariant
            k <= data@.len(),
            d == pairs_view(data@),
            out@ == head + meta_text(d.take(k as int)),
        decreases data@.len() - k,
    {
        let mut key = chars_of(data[k].0.as_str());
        let mut value = chars_of(data[k].1.as_str());
        out.append(&mut key);
        out.push('/');
        out.append(&mut value);
        out.push('\n');
        assert(d.take(k + 1).drop_last() =~= d.take(k as int));
        assert(out@ =~= head + meta_text(d.take(k + 1)));
        k += 1;
    }
    assert(d.take(d.len() as int) =~= d);
}

fn push_lines(ls: &Vec<Line>, out: &mut Vec<char>, id: &mut u64)
    requires
        *old(id) + ls@.len() <= u64::MAX,
    ensures
        final(out)@ == old(out)@ + lines_text(ls@, *old(id) as nat),
        *final(id) == *old(id) + ls@.len(),
{
    let ghost id0 = *id as nat;
    let ghost head = out@;
    let mut k: usize = 0;
    assert(ls@.take(0) =~= Seq::<Line>::empty());
    while k < ls.len()
        invariant
            k <= ls@.len(),
            *id == id0 + k,
            id0 + ls@.len() <= u64::MAX,
            out@ == head + lines_text(ls@.take(k as int), id0),
        decreases ls@.len() - k,
    {
        let t = ls[k].to_nfl(*id);
        let mut tc = chars_of(t.as_str());
        out.append(&mut tc);
        out.push('\n');
        assert(ls@.take(k + 1).drop_last() =~= ls@.take(k as int));
        assert(out@ =~= head + lines_text(ls@.take(k + 1), id0));
        *id = *id + 1;
        k += 1;
    }
    assert(ls@.take(ls@.len() as int) =~= ls@);
}

fn push_arcs(arcs: &Vec<Arc>, out: &mut Vec<char>, id: &mut u64)
    requires
        *old(id) + arcs@.len() <= u64::MAX,
    ensures
        final(out)@ == old(out)@ + arcs_text(arcs@, *old(id) as nat),
        *final(id) == *old(id) + arcs@.len(),
{
    let ghost id0 = *id as nat;
    let ghost head = out@;
    let mut k: usize = 0;
    assert(arcs@.take(0) =~= Seq::<Arc>::empty());
    while k < arcs.len()
        invariant
            k <= arcs@.len(),
            *id == id0 + k,
            id0 + arcs@.len() <= u64::MAX,
            out@ == head + arcs_text(arcs@.take(k as int), id0),
        decreases arcs@.len() - k,
    {
        let t = arcs[k].to_nfl(*id);
        let mut tc = chars_of(t.as_str());
        out.append(&mut tc);
        out.push('\n');
        assert(arcs@.take(k + 1).drop_last() =~= arcs@.take(k as int));
        assert(out@ =~= head + arcs_text(arcs@.take(k + 1), id0));
        *id = *id + 1;
        k += 1;
    }
    assert(arcs@.take(arcs@.len() as int) =~= arcs@);
}

impl Part {
    /// Appends the text of this part (see `part_text`), numbering its
    /// records from `*id` on and leaving `*id` past the last of them.
    pub fn push_nfl(&self, out: &mut Vec<char>, id: &mut u64)
        requires
            *old(id) + record_count(*self) <= u64::MAX,
        ensures
            final(out)@ == old(out)@ + part_text(*self, *old(id) as nat),
            *final(id) == *old(id) + record_count(*self),
    {
        proof {
            reveal_strlit("LEVEL/");
        }
        push_str(out, "LEVEL/");
        push_dec(out, self.level);
        out.push('\n');
        push_meta(&self.data, out);
        push_lines(&self.lines, out, id);
        push_arcs(&self.arcs, out, id);
        assert(out@ =~= old(out)@ + part_text(*self, *old(id) as nat));
    }

    /// The text of this part (see `part_text`), numbering its records from
    /// `*id` on and leaving `*id` past the last of them.
    pub fn to_nfl(&self, id: &mut u64) -> (r: String)
        requires
            *old(id) + record_count(*self) <= u64::MAX,
        ensures
            r@ == part_text(*self, *old(id) as nat),
            *final(id) == *old(id) + record_count(*self),
    {
        let mut out: Vec<char> = Vec::new();
        self.push_nfl(&mut out, id);
        assert(out@ =~= part_text(*self, *old(id) as nat));
        string_of(&out)
    }
}

/// The LINE records of `ls`, numbered from `id` on, one per line.
pub open spec fn line_records(ls: Seq<Line>, id: nat) -> Seq<Seq<char>> {
    Seq::new(ls.len(), |k: int| line_text(ls[k], (id + k) as nat))
}

proof fn lemma_read_line_records(ls: Seq<Line>, id: nat, i: int)
    requires
        0 <= i <= ls.len(),
    ensures
        read_records(line_records(ls, id), i, (seq![], ls.take(i), seq![])) == Some(
            (Seq::<(Seq<char>, Seq<char>)>::empty(), ls, Seq::<Arc>::empty()),
        ),
    decreases ls.len() - i,
{
    let data = line_records(ls, id);
    if i == ls.len() {
        assert(ls.take(i) =~= ls);
    } else {
        let rec = data[i];
        let n = (id + i) as nat;
        assert(rec == line_text(ls[i], n));
        lemma_line_text_ends(ls[i], n);
        assert(join_record(data, rec, i) == Some((rec, i)));
        let at: int = crate::text::padded_number(n, 5).len() as int + 2;
        assert(rec.subrange(at, at + 5) =~= word_line());
        assert(has_word(rec, word_line()));
        lemma_line_round_trip(ls[i], n);
        assert(ls.take(i).push(ls[i]) =~= ls.take(i + 1));
        lemma_read_line_records(ls, id, i + 1);
    }
}

/// Writing the segments of a part as LINE records, one per line, and
/// reading those lines back as a part gives the same segments, in the same
/// order, whatever identifiers they were written with.
pub proof fn lemma_part_lines_round_trip(ls: Seq<Line>, id: nat)
    ensures
        part_contents(line_records(ls, id)) == Some(
            (Seq::<(Seq<char>, Seq<char>)>::empty(), ls, Seq::<Arc>::empty()),
        ),
{
    assert(ls.take(0) =~= Seq::<Line>::empty());
    lemma_read_line_records(ls, id, 0);
}

/// Every segment of `ls` is well formed.
pub open spec fn all_wf(ls: Seq<Line>) -> bool {
    forall|k: int| 0 <= k < ls.len() ==> (#[trigger] ls[k]).wf()
}

proof fn lemma_all_wf_concat(a: Seq<Line>, b: Seq<Line>)
    requires
        all_wf(a),
        all_wf(b),
    ensures
        all_wf(a + b),
{
    assert forall|k: int| 0 <= k < (a + b).len() implies (#[trigger] (a + b)[k]).wf() by {
        if k < a.len() {
            assert((a + b)[k] == a[k]);
        } else {
            assert((a + b)[k] == b[k - a.len()]);
        }
    }
}

/// Applying split points to well-formed segments leaves only well-formed segments.
pub proof fn lemma_rebuild_wf(lines: Seq<Line>, pend: Seq<Seq<Point>>)
    requires
        all_wf(lines),
        pend.len() >= lines.len(),
    ensures
        all_wf(untouched(lines, pend)),
        all_wf(replacements(lines, pend)),
        all_wf(rebuild(lines, pend)),
    decreases lines.len(),
{
    if lines.len() > 0 {
        let d = lines.drop_last();
        assert forall|k: int| 0 <= k < d.len() implies (#[trigger] d[k]).wf() by {
            assert(d[k] == lines[k]);
        }
        lemma_rebuild_wf(d, pend);
        let last = lines.last();
        assert(last == lines[lines.len() - 1]);
        assert(all_wf(seq![last]));
        lemma_all_wf_concat(untouched(d, pend), seq![last]);
        assert(untouched(d, pend).push(last) =~= untouched(d, pend) + seq![last]);
        lemma_split_pieces_wf(last, pend[lines.len() - 1]);
        lemma_all_wf_concat(replacements(d, pend), last.split_spec(pend[lines.len() - 1]));
    }
    lemma_all_wf_concat(untouched(lines, pend), replacements(lines, pend));
}

/// The line of a metadata pair: `key/value`.
pub open spec fn meta_record(k: Seq<char>, v: Seq<char>) -> Seq<char> {
    k + seq!['/'] + v
}

/// The lines of metadata pairs.
pub open spec fn meta_records(d: Seq<(Seq<char>, Seq<char>)>) -> Seq<Seq<char>> {
    Seq::new(d.len(), |k: int| meta_record(d[k].0, d[k].1))
}

/// The CIRCLE records of `arcs`, numbered from `id` on, one per line.
pub open spec fn arc_records(arcs: Seq<Arc>, id: nat) -> Seq<Seq<char>> {
    Seq::new(arcs.len(), |k: int| arc_text(arcs[k], (id + k) as nat))
}

/// The lines that the text of a part holds after its `LEVEL/` line:
/// metadata, then segments and arcs numbered on from `id`.
pub open spec fn part_records(p: Part, id: nat) -> Seq<Seq<char>> {
    meta_records(pairs_view(p.data@)) + line_records(p.lines@, id) + arc_records(
        p.arcs@,
        id + p.lines@.len(),
    )
}

/// Metadata that reads back as itself: keys unique and free of `/`, and no
/// line `key/value` that holds `LINE/` or `CIRCLE/` or ends in `$`.
pub open spec fn meta_readable(d: Seq<(Seq<char>, Seq<char>)>) -> bool {
    &&& keys_unique(d)
    &&& forall|k: int|
        0 <= k < d.len() ==> {
            &&& free_of((#[trigger] d[k]).0, '/')
            &&& !has_word(meta_record(d[k].0, d[k].1), word_line())
            &&& !has_word(meta_record(d[k].0, d[k].1), word_circle())
            &&& meta_record(d[k].0, d[k].1).last() != '$'
        }
}

/// What reading the records of a part has gathered before record `i`.
pub open spec fn read_state(d: Seq<(Seq<char>, Seq<char>)>, ls: Seq<Line>, arcs: Seq<Arc>, i: int) -> Contents {
    if i < d.len() {
        (d.take(i), seq![], seq![])
    } else if i < d.len() + ls.len() {
        (d, ls.take(i - d.len()), seq![])
    } else {
        (d, ls, arcs.take(i - d.len() - ls.len()))
    }
}

proof fn lemma_meta_step(d: Seq<(Seq<char>, Seq<char>)>, i: int)
    requires
        meta_readable(d),
        0 <= i < d.len(),
    ensures
        add_record((d.take(i), seq![], seq![]), meta_record(d[i].0, d[i].1)) == Some(
            (d.take(i + 1), Seq::<Line>::empty(), Seq::<Arc>::empty()),
        ),
{
    let k = d[i].0;
    let v = d[i].1;
    let rec = meta_record(k, v);
    assert(free_of(k, '/'));
    lemma_index_of_append(k, seq!['/'] + v, '/');
    assert(rec =~= k + (seq!['/'] + v));
    assert(index_of(seq!['/'] + v, '/') == 0);
    assert(rec.take(k.len() as int) =~= k);
    assert(rec.skip(k.len() as int + 1) =~= v);
    let t = d.take(i);
    lemma_key_pos(t, k);
    if key_pos(t, k) < t.len() {
        assert(t[key_pos(t, k)] == d[key_pos(t, k)]);
    }
    assert(t.push((k, v)) =~= d.take(i + 1));
}

/// A record that does not end in `$` is read on its own.
proof fn lemma_record_step(recs: Seq<Seq<char>>, i: int, c: Contents, c2: Contents)
    requires
        0 <= i < recs.len(),
        recs[i].len() > 0,
        recs[i].last() != '$',
        add_record(c, recs[i]) == Some(c2),
    ensures
        read_records(recs, i, c) == read_records(recs, i + 1, c2),
{
    assert(join_record(recs, recs[i], i) == Some((recs[i], i)));
}

proof fn lemma_line_step(d: Seq<(Seq<char>, Seq<char>)>, ls: Seq<Line>, j: int, num: nat)
    requires
        0 <= j < ls.len(),
    ensures
        line_text(ls[j], num).len() > 0,
        line_text(ls[j], num).last() != '$',
        add_record((d, ls.take(j), seq![]), line_text(ls[j], num)) == Some(
            (d, ls.take(j + 1), Seq::<Arc>::empty()),
        ),
{
    let rec = line_text(ls[j], num);
    lemma_line_text_ends(ls[j], num);
    let at: int = crate::text::padded_number(num, 5).len() as int + 2;
    assert(rec.subrange(at, at + 5) =~= word_line());
    lemma_line_round_trip(ls[j], num);
    assert(ls.take(j).push(ls[j]) =~= ls.take(j + 1));
}

proof fn lemma_arc_step(
    d: Seq<(Seq<char>, Seq<char>)>,
    ls: Seq<Line>,
    arcs: Seq<Arc>,
    j: int,
    num: nat,
)
    requires
        0 <= j < arcs.len(),
    ensures
        arc_text(arcs[j], num).len() > 0,
        arc_text(arcs[j], num).last() != '$',
        add_record((d, ls, arcs.take(j)), arc_text(arcs[j], num)) == Some(
            (d, ls, arcs.take(j + 1)),
        ),
{
    lemma_arc_text_kind(arcs[j], num);
    assert(seq!['L', 'I', 'N', 'E', '/'] =~= word_line());
    assert(seq!['C', 'I', 'R', 'C', 'L', 'E', '/'] =~= word_circle());
    lemma_arc_round_trip(arcs[j], num);
    assert(arcs.take(j).push(arcs[j]) =~= arcs.take(j + 1));
}

proof fn lemma_read_part_records(
    d: Seq<(Seq<char>, Seq<char>)>,
    ls: Seq<Line>,
    arcs: Seq<Arc>,
    id: nat,
    i: int,
)
    requires
        meta_readable(d),
        0 <= i <= d.len() + ls.len() + arcs.len(),
    ensures
        read_records(
            meta_records(d) + line_records(ls, id) + arc_records(arcs, id + ls.len()),
            i,
            read_state(d, ls, arcs, i),
        ) == Some((d, ls, arcs)),
    decreases d.len() + ls.len() + arcs.len() - i,
{
    let recs = meta_records(d) + line_records(ls, id) + arc_records(arcs, id + ls.len());
    let m = d.len() as int;
    let l = ls.len() as int;
    let n = recs.len() as int;
    if i == n {
        assert(arcs.take(arcs.len() as int) =~= arcs);
        assert(ls.take(l) =~= ls);
        assert(d.take(m) =~= d);
    } else {
        lemma_read_part_records(d, ls, arcs, id, i + 1);
        let next = read_state(d, ls, arcs, i + 1);
        if i < m {
            assert(recs[i] == meta_record(d[i].0, d[i].1));
            assert(free_of(d[i].0, '/'));
            assert(meta_record(d[i].0, d[i].1).last() != '$');
            assert(meta_record(d[i].0, d[i].1).len() > 0);
            lemma_meta_step(d, i);
            if i + 1 == m {
                assert(d.take(i + 1) =~= d);
                assert(ls.take(0) =~= Seq::<Line>::empty());
                assert(arcs.take(0) =~= Seq::<Arc>::empty());
                if l == 0 {
                    assert(ls =~= Seq::<Line>::empty());
                }
            }
            assert(next == (d.take(i + 1), Seq::<Line>::empty(), Seq::<Arc>::empty()));
            lemma_record_step(recs, i, read_state(d, ls, arcs, i), next);
        } else if i < m + l {
            let j = i - m;
            let num = (id + j) as nat;
            assert(recs[i] == line_text(ls[j], num));
            lemma_line_step(d, ls, j, num);
            if i + 1 == m + l {
                assert(ls.take(j + 1) =~= ls);
                assert(arcs.take(0) =~= Seq::<Arc>::empty());
            }
            lemma_record_step(recs, i, read_state(d, ls, arcs, i), next);
        } else {
            let j = i - m - l;
            let num = (id + ls.len() + j) as nat;
            assert(recs[i] == arc_text(arcs[j], num));
            lemma_arc_step(d, ls, arcs, j, num);
            lemma_record_step(recs, i, read_state(d, ls, arcs, i), next);
        }
    }
}

/// Writing a part and reading back the lines that follow its `LEVEL/` line
/// gives the same metadata, segments and arcs, in the same order, whatever
/// identifiers the records were written with, when its metadata reads back
/// as itself (see `meta_readable`).
pub proof fn lemma_part_round_trip(p: Part, id: nat)
    requires
        meta_readable(pairs_view(p.data@)),
    ensures
        part_contents(part_records(p, id)) == Some((pairs_view(p.data@), p.lines@, p.arcs@)),
{
    let d = pairs_view(p.data@);
    lemma_read_part_records(d, p.lines@, p.arcs@, id, 0);
    assert(part_records(p, id) == meta_records(d) + line_records(p.lines@, id) + arc_records(
        p.arcs@,
        id + p.lines@.len(),
    ));
    if d.len() > 0 {
        assert(d.take(0) =~= Seq::<(Seq<char>, Seq<char>)>::empty());
    } else if p.lines@.len() > 0 {
        assert(p.lines@.take(0) =~= Seq::<Line>::empty());
    } else {
        assert(p.arcs@.take(0) =~= Seq::<Arc>::empty());
    }
    assert(read_state(d, p.lines@, p.arcs@, 0) == (
        Seq::<(Seq<char>, Seq<char>)>::empty(),
        Seq::<Line>::empty(),
        Seq::<Arc>::empty(),
    ));
}

/// The lines `rs`, each ended by a newline.
pub open spec fn lines_joined(rs: Seq<Seq<char>>) -> Seq<char>
    decreases rs.len(),
{
    if rs.len() == 0 {
        seq![]
    } else {
        lines_joined(rs.drop_last()) + rs.last() + seq!['\n']
    }
}

proof fn lemma_lines_joined_concat(a: Seq<Seq<char>>, b: Seq<Seq<char>>)
    ensures
        lines_joined(a + b) == lines_joined(a) + lines_joined(b),
    decreases b.len(),
{
    if b.len() == 0 {
        assert(a + b =~= a);
        assert(lines_joined(a) + lines_joined(b) =~= lines_joined(a));
    } else {
        lemma_lines_joined_concat(a, b.drop_last());
        assert((a + b).drop_last() =~= a + b.drop_last());
        assert((a + b).last() == b.last());
        assert(lines_joined(a + b) =~= lines_joined(a) + lines_joined(b));
    }
}

proof fn lemma_meta_joined(d: Seq<(Seq<char>, Seq<char>)>)
    ensures
        meta_text(d) == lines_joined(meta_records(d)),
    decreases d.len(),
{
    if d.len() > 0 {
        lemma_meta_joined(d.drop_last());
        assert(meta_records(d).drop_last() =~= meta_records(d.drop_last()));
        assert(meta_text(d) =~= lines_joined(meta_records(d)));
    } else {
        assert(meta_records(d) =~= Seq::<Seq<char>>::empty());
    }
}

proof fn lemma_lines_joined_lines(ls: Seq<Line>, id: nat)
    ensures
        lines_text(ls, id) == lines_joined(line_records(ls, id)),
    decreases ls.len(),
{
    if ls.len() > 0 {
        lemma_lines_joined_lines(ls.drop_last(), id);
        assert(line_records(ls, id).drop_last() =~= line_records(ls.drop_last(), id));
        assert(lines_text(ls, id) =~= lines_joined(line_records(ls, id)));
    } else {
        assert(line_records(ls, id) =~= Seq::<Seq<char>>::empty());
    }
}

proof fn lemma_lines_joined_arcs(arcs: Seq<Arc>, id: nat)
    ensures
        arcs_text(arcs, id) == lines_joined(arc_records(arcs, id)),
    decreases arcs.len(),
{
    if arcs.len() > 0 {
        lemma_lines_joined_arcs(arcs.drop_last(), id);
        assert(arc_records(arcs, id).drop_last() =~= arc_records(arcs.drop_last(), id));
        assert(arcs_text(arcs, id) =~= lines_joined(arc_records(arcs, id)));
    } else {
        assert(arc_records(arcs, id) =~= Seq::<Seq<char>>::empty());
    }
}

/// The text of a part is its `LEVEL/` line followed by the lines of
/// `part_records`, each ended by a newline.
pub proof fn lemma_part_text_lines(p: Part, id: nat)
    ensures
        part_text(p, id) == seq!['L', 'E', 'V', 'E', 'L', '/'] + dec_digits(p.level as nat) + seq![
            '\n',
        ] + lines_joined(part_records(p, id)),
{
    let d = pairs_view(p.data@);
    lemma_meta_joined(d);
    lemma_lines_joined_lines(p.lines@, id);
    lemma_lines_joined_arcs(p.arcs@, id + p.lines@.len());
    let a = meta_records(d);
    let b = line_records(p.lines@, id);
    let c = arc_records(p.arcs@, id + p.lines@.len());
    lemma_lines_joined_concat(a, b);
    lemma_lines_joined_concat(a + b, c);
    assert(part_text(p, id) =~= seq!['L', 'E', 'V', 'E', 'L', '/'] + dec_digits(p.level as nat)
        + seq!['\n'] + lines_joined(part_records(p, id)));
}

} // verus!
