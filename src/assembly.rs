use vstd::prelude::*;

use crate::decimal::{parse_u64, parse_u64_spec};
use crate::line::Line;
use crate::part::{
    all_wf, disjoint_lines, lemma_resolve_disjoint, pairs_view, part_contents, part_text,
    pending_all, rebuild, record_count, strings_view, Part,
};
use crate::text::{chars_of, is_word, starts_with_word, string_of};

verus! {

/// A whole drawing: header lines kept verbatim, the parts in ascending order
/// of level, and footer lines kept verbatim.
pub struct Assembly {
    pub header: Vec<String>,
    pub footer: Vec<String>,
    pub parts: Vec<Part>,
}

/// The segments of each part.
pub open spec fn lines_of(parts: Seq<Part>) -> Seq<Seq<Line>> {
    parts.map_values(|p: Part| p.lines@)
}

/// The segment lists after resolving part `i` against part `j`.
pub open spec fn resolve_pair(ls: Seq<Seq<Line>>, i: int, j: int, tol: int) -> Seq<Seq<Line>> {
    ls.update(i, rebuild(ls[i], pending_all(ls[i], ls[j], tol, true))).update(
        j,
        rebuild(ls[j], pending_all(ls[j], ls[i], tol, false)),
    )
}

/// Part `i` resolved against parts `i + 1 .. end`, in that order.
pub open spec fn resolve_row(ls: Seq<Seq<Line>>, i: int, end: int, tol: int) -> Seq<Seq<Line>>
    decreases end - i,
{
    if end <= i + 1 {
        ls
    } else {
        resolve_pair(resolve_row(ls, i, end - 1, tol), i, end - 1, tol)
    }
}

/// The rows of parts `0 .. rows` resolved, each against every later part.
pub open spec fn resolve_rows(ls: Seq<Seq<Line>>, rows: int, tol: int) -> Seq<Seq<Line>>
    decreases rows,
{
    if rows <= 0 {
        ls
    } else {
        resolve_row(resolve_rows(ls, rows - 1, tol), rows - 1, ls.len() as int, tol)
    }
}

/// Every segment of every part is well formed.
pub open spec fn parts_wf(ps: Seq<Part>) -> bool {
    forall|k: int| 0 <= k < ps.len() ==> all_wf((#[trigger] ps[k]).lines@)
}

/// The parts agree in everything but their segments.
pub open spec fn same_but_lines(a: Seq<Part>, b: Seq<Part>) -> bool {
    &&& a.len() == b.len()
    &&& forall|k: int|
        0 <= k < a.len() ==> {
            &&& (#[trigger] a[k]).level == b[k].level
            &&& a[k].data@ == b[k].data@
            &&& a[k].arcs@ == b[k].arcs@
        }
}

fn empty_part() -> (r: Part)
    ensures
        r.lines@.len() == 0,
{
    Part { level: 0, data: Vec::new(), lines: Vec::new(), arcs: Vec::new() }
}

impl Assembly {
    /// Resolves every pair of distinct parts `i < j`, row by row, so that
    /// overlapping segments of different parts end up split at common points.
    pub fn split(&mut self, max_dist: i32)
        ensures
            lines_of(final(self).parts@) == resolve_rows(
                lines_of(old(self).parts@),
                old(self).parts@.len() as int,
                max_dist as int,
            ),
            same_but_lines(old(self).parts@, final(self).parts@),
            final(self).header@ == old(self).header@,
            final(self).footer@ == old(self).footer@,
            parts_wf(old(self).parts@) ==> parts_wf(final(self).parts@),
    {
        let ghost l0 = lines_of(self.parts@);
        let ghost p0 = self.parts@;
        let ghost tol = max_dist as int;
        let n = self.parts.len();
        let mut i: usize = 0;
        while i < n
            invariant
                n == self.parts@.len(),
                n == l0.len(),
                tol == max_dist as int,
                i <= n,
                lines_of(self.parts@) == resolve_rows(l0, i as int, tol),
                same_but_lines(p0, self.parts@),
                self.header@ == old(self).header@,
                self.footer@ == old(self).footer@,
                parts_wf(p0) ==> parts_wf(self.parts@),
            decreases n - i,
        {
            let mut j: usize = i + 1;
            while j < n
                invariant
                    n == self.parts@.len(),
                    n == l0.len(),
                    tol == max_dist as int,
                    i < n,
                    i + 1 <= j <= n || j == i + 1,
                    lines_of(self.parts@) == resolve_row(
                        resolve_rows(l0, i as int, tol),
                        i as int,
                        j as int,
                        tol,
                    ),
                    same_but_lines(p0, self.parts@),
                    self.header@ == old(self).header@,
                    self.footer@ == old(self).footer@,
                    parts_wf(p0) ==> parts_wf(self.parts@),
                decreases n - j,
            {
                let ghost before = self.parts@;
                let ghost ls = lines_of(before);
                let mut other = empty_part();
                std::mem::swap(&mut other, &mut self.parts[j]);
                Part::resolve_overlaps(&mut self.parts[i], &mut other, max_dist);
                std::mem::swap(&mut other, &mut self.parts[j]);
                proof {
                    if parts_wf(p0) {
                        assert(all_wf(before[i as int].lines@));
                        assert(all_wf(before[j as int].lines@));
                        assert forall|k: int| 0 <= k < n implies all_wf(
                            (#[trigger] self.parts@[k]).lines@,
                        ) by {
                            if k != i && k != j {
                                assert(self.parts@[k] == before[k]);
                            }
                        }
                    }
                    assert(lines_of(self.parts@) =~= resolve_pair(ls, i as int, j as int, tol));
                    assert forall|k: int| 0 <= k < n implies {
                        &&& (#[trigger] p0[k]).level == self.parts@[k].level
                        &&& p0[k].data@ == self.parts@[k].data@
                        &&& p0[k].arcs@ == self.parts@[k].arcs@
                    } by {
                        assert(before[k].level == p0[k].level);
                    }
                }
                j += 1;
            }
            proof {
                assert(resolve_rows(l0, i + 1, tol) == resolve_row(
                    resolve_rows(l0, i as int, tol),
                    i as int,
                    l0.len() as int,
                    tol,
                ));
            }
            i += 1;
        }
    }
}

/// No two segments of different parts share a span.
pub open spec fn no_overlaps(ls: Seq<Seq<Line>>, tol: int) -> bool {
    forall|i: int, j: int|
        0 <= i < j < ls.len() ==> #[trigger] disjoint_lines(ls[i], ls[j], tol)
}

proof fn lemma_row_unchanged(ls: Seq<Seq<Line>>, i: int, end: int, tol: int)
    requires
        no_overlaps(ls, tol),
        0 <= i,
        end <= ls.len(),
    ensures
        resolve_row(ls, i, end, tol) == ls,
    decreases end - i,
{
    if end > i + 1 {
        lemma_row_unchanged(ls, i, end - 1, tol);
        assert(disjoint_lines(ls[i], ls[end - 1], tol));
        lemma_resolve_disjoint(ls[i], ls[end - 1], tol);
        assert(resolve_pair(ls, i, end - 1, tol) =~= ls);
    }
}

/// Resolving every pair of parts of an assembly in which no two segments of
/// different parts share a span leaves every part's segments as they were.
pub proof fn lemma_resolve_idempotent(ls: Seq<Seq<Line>>, tol: int)
    requires
        no_overlaps(ls, tol),
    ensures
        resolve_rows(ls, ls.len() as int, tol) == ls,
{
    lemma_rows_unchanged(ls, ls.len() as int, tol);
}

proof fn lemma_rows_unchanged(ls: Seq<Seq<Line>>, rows: int, tol: int)
    requires
        no_overlaps(ls, tol),
        rows <= ls.len(),
    ensures
        resolve_rows(ls, rows, tol) == ls,
    decreases rows,
{
    if rows > 0 {
        lemma_rows_unchanged(ls, rows - 1, tol);
        lemma_row_unchanged(ls, rows - 1, ls.len() as int, tol);
    }
}

/// Where in the drawing file a line stands.
#[derive(Clone, Copy, Debug, PartialEq, Eq, Structural)]
pub enum FileSection {
    Header,
    Body(u64),
    Footer,
}

/// The lines of each level read so far, in ascending order of level.
pub type Groups = Seq<(u64, Seq<Seq<char>>)>;

/// `g` with `line` added to the lines of `level`, a new group being put in
/// its place in ascending order when there is none for it yet.
pub open spec fn group_add(g: Groups, level: u64, line: Seq<char>) -> Groups
    decreases g.len(),
{
    if g.len() == 0 {
        seq![(level, seq![line])]
    } else if g[0].0 == level {
        g.update(0, (level, g[0].1.push(line)))
    } else if g[0].0 > level {
        seq![(level, seq![line])] + g
    } else {
        seq![g[0]] + group_add(g.drop_first(), level, line)
    }
}

pub open spec fn word_level() -> Seq<char> {
    seq!['L', 'E', 'V', 'E', 'L', '/']
}

pub open spec fn word_fini() -> Seq<char> {
    seq!['F', 'I', 'N', 'I', '/']
}

/// The level named on a `LEVEL/` line, 0 when it is not a number.
pub open spec fn level_of(ip: Seq<char>) -> u64 {
    match parse_u64_spec(ip.skip(6)) {
        Some(v) => v as u64,
        None => 0,
    }
}

/// What the scan of a drawing file has gathered: the section it is in, the
/// header lines, the footer lines and the lines of each part.
pub type Scan = (FileSection, Seq<Seq<char>>, Seq<Seq<char>>, Groups);

/// The scan after one more line `ip`: a `LEVEL/` line opens the part it
/// names; empty lines and lines that begin with the end-of-file character
/// (U+001A) are dropped; other lines go to the header, the footer or the
/// current part, and `FINI/` closes the parts and begins the footer.
pub open spec fn scan_step(st: Scan, ip: Seq<char>) -> Scan {
    if ip.len() >= 6 && ip.take(6) == word_level() {
        (FileSection::Body(level_of(ip)), st.1, st.2, st.3)
    } else if ip.len() == 0 || ip[0] == '\u{1a}' {
        st
    } else {
        match st.0 {
            FileSection::Header => (st.0, st.1.push(ip), st.2, st.3),
            FileSection::Footer => (st.0, st.1, st.2.push(ip), st.3),
            FileSection::Body(level) => if ip == word_fini() {
                (FileSection::Footer, st.1, st.2.push(ip), st.3)
            } else {
                (st.0, st.1, st.2, group_add(st.3, level, ip))
            },
        }
    }
}

/// The scan of the lines of a drawing file.
pub open spec fn scan(lines: Seq<Seq<char>>) -> Scan
    decreases lines.len(),
{
    if lines.len() == 0 {
        (FileSection::Header, seq![], seq![], seq![])
    } else {
        scan_step(scan(lines.drop_last()), lines.last())
    }
}

/// The views of the groups of lines held by a vector.
pub open spec fn groups_view(g: Seq<(u64, Vec<String>)>) -> Groups {
    g.map_values(|e: (u64, Vec<String>)| (e.0, strings_view(e.1@)))
}

proof fn lemma_group_add_skip(g: Groups, level: u64, line: Seq<char>, k: int)
    requires
        0 <= k <= g.len(),
        forall|j: int| 0 <= j < k ==> (#[trigger] g[j]).0 < level,
    ensures
        group_add(g, level, line) == g.take(k) + group_add(g.skip(k), level, line),
    decreases k,
{
    if k == 0 {
        assert(g.skip(0) =~= g);
        assert(g.take(0) + group_add(g.skip(0), level, line) =~= group_add(g, level, line));
    } else {
        let d = g.drop_first();
        assert forall|j: int| 0 <= j < k - 1 implies (#[trigger] d[j]).0 < level by {
            assert(d[j] == g[j + 1]);
        }
        lemma_group_add_skip(d, level, line, k - 1);
        assert(d.skip(k - 1) =~= g.skip(k));
        assert(g.take(k) =~= seq![g[0]] + d.take(k - 1));
        assert(group_add(g, level, line) == seq![g[0]] + group_add(d, level, line));
    }
}

/// Adds `line` to the lines of `level` (see `group_add`).
fn add_to_group(g: &mut Vec<(u64, Vec<String>)>, level: u64, line: String)
    ensures
        groups_view(final(g)@) == group_add(groups_view(old(g)@), level, line@),
{
    let ghost gv = groups_view(g@);
    let mut k: usize = 0;
    while k < g.len() && g[k].0 < level
        invariant
            k <= g@.len(),
            gv == groups_view(g@),
            g@ == old(g)@,
            forall|j: int| 0 <= j < k ==> (#[trigger] gv[j]).0 < level,
        decreases g@.len() - k,
    {
        k += 1;
    }
    proof {
        lemma_group_add_skip(gv, level, line@, k as int);
    }
    if k < g.len() && g[k].0 == level {
        let mut entry: (u64, Vec<String>) = (0, Vec::new());
        std::mem::swap(&mut entry, &mut g[k]);
        assert(strings_view(entry.1@) == gv[k as int].1);
        let ghost before = entry.1@;
        entry.1.push(line);
        assert(strings_view(entry.1@) =~= strings_view(before).push(line@));
        let ghost ev = (entry.0, strings_view(entry.1@));
        assert(ev == (level, gv[k as int].1.push(line@)));
        std::mem::swap(&mut entry, &mut g[k]);
        assert(groups_view(g@) =~= gv.take(k as int) + group_add(gv.skip(k as int), level, line@))
            by {
            assert(gv.skip(k as int)[0] == gv[k as int]);
            assert(group_add(gv.skip(k as int), level, line@) =~= gv.skip(k as int).update(0, ev));
        }
    } else {
        let mut v: Vec<String> = Vec::new();
        v.push(line);
        g.insert(k, (level, v));
        assert(groups_view(g@) =~= gv.take(k as int) + group_add(gv.skip(k as int), level, line@))
            by {
            if k < gv.len() {
                assert(gv.skip(k as int)[0] == gv[k as int]);
            }
            assert(strings_view(v@) =~= seq![line@]);
        }
    }
}

impl Assembly {
    /// Reads a drawing from the lines of its file: header, parts by level
    /// in ascending order, and footer (see `scan`); each part is read from
    /// its lines with `Part::new`. `None` when a part cannot be read.
    pub fn from_lines(lines: Vec<String>) -> (r: Option<Assembly>)
        ensures
            ({
                let st = scan(strings_view(lines@));
                match r {
                    Some(a) => {
                        &&& strings_view(a.header@) == st.1
                        &&& strings_view(a.footer@) == st.2
                        &&& a.parts@.len() == st.3.len()
                        &&& forall|k: int|
                            0 <= k < st.3.len() ==> {
                                &&& (#[trigger] a.parts@[k]).level == st.3[k].0
                                &&& part_contents(st.3[k].1) == Some(
                                    (
                                        pairs_view(a.parts@[k].data@),
                                        a.parts@[k].lines@,
                                        a.parts@[k].arcs@,
                                    ),
                                )
                            }
                    },
                    None => exists|k: int|
                        0 <= k < st.3.len() && part_contents(#[trigger] st.3[k].1) is None,
                }
            }),
    {
        let ghost lv = strings_view(lines@);
        proof {
            reveal_strlit("LEVEL/");
            reveal_strlit("FINI/");
            assert("LEVEL/"@ =~= word_level());
            assert("FINI/"@ =~= word_fini());
        }
        let mut section = FileSection::Header;
        let mut header: Vec<String> = Vec::new();
        let mut footer: Vec<String> = Vec::new();
        let mut groups: Vec<(u64, Vec<String>)> = Vec::new();
        let mut i: usize = 0;
        assert(lv.take(0) =~= Seq::<Seq<char>>::empty());
        assert(strings_view(header@) =~= Seq::<Seq<char>>::empty());
        assert(groups_view(groups@) =~= Seq::<(u64, Seq<Seq<char>>)>::empty());
        while i < lines.len()
            invariant
                i <= lines@.len(),
                lv == strings_view(lines@),
                "LEVEL/"@ == word_level(),
                "FINI/"@ == word_fini(),
                scan(lv.take(i as int)) == (
                    section,
                    strings_view(header@),
                    strings_view(footer@),
                    groups_view(groups@),
                ),
            decreases lines@.len() - i,
        {
            let ghost before = (
                section,
                strings_view(header@),
                strings_view(footer@),
                groups_view(groups@),
            );
            let ip = chars_of(lines[i].as_str());
            assert(lv.take(i + 1).drop_last() =~= lv.take(i as int));
            assert(lv.take(i + 1).last() == ip@);
            if starts_with_word(&ip, "LEVEL/") {
                let rest = &ip.as_slice()[6..ip.len()];
                assert(rest@ =~= ip@.skip(6));
                let level = match parse_u64(rest) {
                    Some(v) => v,
                    None => 0,
                };
                section = FileSection::Body(level);
            } else if ip.len() == 0 || ip[0] == '\u{1a}' {
            } else {
                match section {
                    FileSection::Header => {
                        header.push(lines[i].clone());
                        assert(strings_view(header@) =~= before.1.push(ip@));
                    },
                    FileSection::Footer => {
                        footer.push(lines[i].clone());
                        assert(strings_view(footer@) =~= before.2.push(ip@));
                    },
                    FileSection::Body(level) => {
                        if is_word(ip.as_slice(), "FINI/") {
                            section = FileSection::Footer;
                            footer.push(lines[i].clone());
                            assert(strings_view(footer@) =~= before.2.push(ip@));
                        } else {
                            add_to_group(&mut groups, level, lines[i].clone());
                        }
                    },
                }
            }
            assert(scan(lv.take(i + 1)) == (
                section,
                strings_view(header@),
                strings_view(footer@),
                groups_view(groups@),
            ));
            i += 1;
        }
        assert(lv.take(lines@.len() as int) =~= lv);
        let ghost gv = groups_view(groups@);
        let mut parts: Vec<Part> = Vec::new();
        let mut k: usize = 0;
        while k < groups.len()
            invariant
                k <= groups@.len(),
                lv == strings_view(lines@),
                scan(lv) == (section, strings_view(header@), strings_view(footer@), gv),
                gv.len() == groups@.len(),
                forall|m: int| k <= m < groups@.len() ==> (#[trigger] groups_view(groups@)[m]) == gv[m],
                parts@.len() == k,
                forall|m: int|
                    0 <= m < k ==> {
                        &&& (#[trigger] parts@[m]).level == gv[m].0
                        &&& part_contents(gv[m].1) == Some(
                            (pairs_view(parts@[m].data@), parts@[m].lines@, parts@[m].arcs@),
                        )
                    },
            decreases groups@.len() - k,
        {
            let mut entry: (u64, Vec<String>) = (0, Vec::new());
            let ghost gk = groups_view(groups@)[k as int];
            let ghost g_before = groups@;
            std::mem::swap(&mut entry, &mut groups[k]);
            assert((entry.0, strings_view(entry.1@)) == gk);
            assert forall|m: int| k < m < groups@.len() implies (#[trigger] groups_view(groups@)[m])
                == gv[m] by {
                assert(groups@[m] == g_before[m]);
                assert(groups_view(g_before)[m] == gv[m]);
            }
            match Part::new(entry.0, entry.1) {
                Some(p) => parts.push(p),
                None => {
                    assert(part_contents(gv[k as int].1) is None);
                    return None;
                },
            }
            k += 1;
        }
        Some(Assembly { header, footer, parts })
    }
}

/// Lines kept verbatim, each ended by a newline.
pub open spec fn verbatim_text(h: Seq<Seq<char>>) -> Seq<char>
    decreases h.len(),
{
    if h.len() == 0 {
        seq![]
    } else {
        verbatim_text(h.drop_last()) + h.last() + seq!['\n']
    }
}

/// The number of records that get an identifier in `ps`.
pub open spec fn total_count(ps: Seq<Part>) -> nat
    decreases ps.len(),
{
    if ps.len() == 0 {
        0
    } else {
        total_count(ps.drop_last()) + record_count(ps.last())
    }
}

/// The text of the parts `ps`, their records numbered on from `id` across
/// all parts, segments before arcs within each.
pub open spec fn parts_text(ps: Seq<Part>, id: nat) -> Seq<char>
    decreases ps.len(),
{
    if ps.len() == 0 {
        seq![]
    } else {
        parts_text(ps.drop_last(), id) + part_text(ps.last(), id + total_count(ps.drop_last()))
    }
}

/// The text of a whole drawing: header, parts numbered from 1, footer, less
/// the newline after the last line.
pub open spec fn assembly_text(a: Assembly) -> Seq<char> {
    let t = verbatim_text(strings_view(a.header@)) + parts_text(a.parts@, 1) + verbatim_text(
        strings_view(a.footer@),
    );
    if t.len() > 0 {
        t.drop_last()
    } else {
        t
    }
}

fn push_verbatim(h: &Vec<String>, out: &mut Vec<char>)
    ensures
        final(out)@ == old(out)@ + verbatim_text(strings_view(h@)),
{
    let ghost hv = strings_view(h@);
    let ghost head = out@;
    let mut k: usize = 0;
    assert(hv.take(0) =~= Seq::<Seq<char>>::empty());
    while k < h.len()
        invariant
            k <= h@.len(),
            hv == strings_view(h@),
            out@ == head + verbatim_text(hv.take(k as int)),
        decreases h@.len() - k,
    {
        let mut cs = chars_of(h[k].as_str());
        out.append(&mut cs);
        out.push('\n');
        assert(hv.take(k + 1).drop_last() =~= hv.take(k as int));
        assert(out@ =~= head + verbatim_text(hv.take(k + 1)));
        k += 1;
    }
    assert(hv.take(h@.len() as int) =~= hv);
}

proof fn lemma_total_count_prefix(ps: Seq<Part>, k: int)
    requires
        0 <= k <= ps.len(),
    ensures
        total_count(ps.take(k)) <= total_count(ps),
    decreases ps.len() - k,
{
    if k < ps.len() {
        lemma_total_count_prefix(ps, k + 1);
        assert(ps.take(k + 1).drop_last() =~= ps.take(k));
    } else {
        assert(ps.take(k) =~= ps);
    }
}

impl Assembly {
    /// The text of the drawing for writing (see `assembly_text`).
    pub fn to_nfl(&self) -> (r: String)
        requires
            1 + total_count(self.parts@) <= u64::MAX,
        ensures
            r@ == assembly_text(*self),
    {
        let mut out: Vec<char> = Vec::new();
        push_verbatim(&self.header, &mut out);
        let ghost head = out@;
        let ps = &self.parts;
        let mut id: u64 = 1;
        let mut k: usize = 0;
        assert(ps@.take(0) =~= Seq::<Part>::empty());
        while k < ps.len()
            invariant
                k <= ps@.len(),
                ps@ == self.parts@,
                1 + total_count(ps@) <= u64::MAX,
                id == 1 + total_count(ps@.take(k as int)),
                out@ == head + parts_text(ps@.take(k as int), 1),
            decreases ps@.len() - k,
        {
            proof {
                lemma_total_count_prefix(ps@, k + 1);
                assert(ps@.take(k + 1).drop_last() =~= ps@.take(k as int));
            }
            ps[k].push_nfl(&mut out, &mut id);
            assert(out@ =~= head + parts_text(ps@.take(k + 1), 1));
            k += 1;
        }
        assert(ps@.take(ps@.len() as int) =~= ps@);
        push_verbatim(&self.footer, &mut out);
        let ghost full = out@;
        if out.len() > 0 {
            out.pop();
            assert(out@ =~= full.drop_last());
        }
        string_of(&out)
    }
}

} // verus!
