use vstd::prelude::*;

use crate::decimal::{
    format_fixed, format_fixed_spec, is_digit, lemma_fixed_round_trip, parse_fixed,
    parse_fixed_spec,
};
use crate::line::Line;
use crate::point::Point;
use crate::text::{
    after_last, after_tag, after_tag_start, chars_of, free_of, last_index,
    lemma_after_tag_one_line, lemma_free_concat, lemma_padded_digits, lemma_split_cons,
    padded_number, push_padded, split_bounds, split_on, string_of,
};

verus! {

/// The value of a number field, when it is one.
pub open spec fn coord_of(s: Seq<char>) -> i32 {
    parse_fixed_spec(s)->0 as i32
}

/// The segment written in a LINE record: the four numbers `x1,y1,x2,y2`
/// that follow its tag (see `after_tag`); further fields are ignored. `None` when there
/// are fewer than four fields or one of them is not a number.
pub open spec fn line_from_text(s: Seq<char>) -> Option<Line> {
    let f = split_on(after_tag(s), ',');
    if f.len() >= 4 && parse_fixed_spec(f[0]) is Some && parse_fixed_spec(f[1]) is Some
        && parse_fixed_spec(f[2]) is Some && parse_fixed_spec(f[3]) is Some {
        Some(
            Line {
                p1: Point { x: coord_of(f[0]), y: coord_of(f[1]) },
                p2: Point { x: coord_of(f[2]), y: coord_of(f[3]) },
            },
        )
    } else {
        None
    }
}

/// The four coordinates of a segment, separated by commas.
pub open spec fn coords_text(l: Line) -> Seq<char> {
    format_fixed_spec(l.p1.x as int) + seq![','] + format_fixed_spec(l.p1.y as int) + seq![',']
        + format_fixed_spec(l.p2.x as int) + seq![','] + format_fixed_spec(l.p2.y as int)
}

/// The LINE record of a segment with identifier `id`:
/// `L<id, five digits at least>=LINE/x1,y1,x2,y2`.
pub open spec fn line_text(l: Line, id: nat) -> Seq<char> {
    seq!['L'] + padded_number(id, 5) + seq!['=', 'L', 'I', 'N', 'E', '/'] + coords_text(l)
}

pub fn push_fixed_text(out: &mut Vec<char>, v: i32)
    ensures
        final(out)@ == old(out)@ + format_fixed_spec(v as int),
{
    let mut t = format_fixed(v);
    out.append(&mut t);
}

impl Line {
    /// Reads a LINE record (see `line_from_text`).
    pub fn from_nfl(data: &str) -> (r: Option<Line>)
        ensures
            r == line_from_text(data@),
    {
        let cs = chars_of(data);
        let all = cs.as_slice();
        let st = after_tag_start(all);
        let rest = &all[st..all.len()];
        assert(rest@ =~= after_tag(data@));
        let b = split_bounds(rest, ',');
        if b.len() < 4 {
            return None;
        }
        let x1 = parse_fixed(&rest[b[0].0..b[0].1]);
        let y1 = parse_fixed(&rest[b[1].0..b[1].1]);
        let x2 = parse_fixed(&rest[b[2].0..b[2].1]);
        let y2 = parse_fixed(&rest[b[3].0..b[3].1]);
        match (x1, y1, x2, y2) {
            (Some(x1), Some(y1), Some(x2), Some(y2)) => Some(Line::new(x1, y1, x2, y2)),
            _ => None,
        }
    }

    /// The LINE record of this segment with identifier `id` (see `line_text`).
    pub fn to_nfl(&self, id: u64) -> (r: String)
        ensures
            r@ == line_text(*self, id as nat),
    {
        let mut out: Vec<char> = Vec::new();
        out.push('L');
        push_padded(&mut out, id, 5);
        out.push('=');
        out.push('L');
        out.push('I');
        out.push('N');
        out.push('E');
        out.push('/');
        push_fixed_text(&mut out, self.p1.x);
        out.push(',');
        push_fixed_text(&mut out, self.p1.y);
        out.push(',');
        push_fixed_text(&mut out, self.p2.x);
        out.push(',');
        push_fixed_text(&mut out, self.p2.y);
        assert(out@ =~= line_text(*self, id as nat));
        string_of(&out)
    }
}

/// Every character of `s` is a digit, `-` or `.`.
pub open spec fn number_text(s: Seq<char>) -> bool {
    forall|i: int| 0 <= i < s.len() ==> is_digit(#[trigger] s[i]) || s[i] == '-' || s[i] == '.'
}

pub proof fn lemma_fixed_chars(v: int)
    ensures
        number_text(format_fixed_spec(v)),
{
    reveal(format_fixed_spec);
    let m = if v < 0 {
        -v
    } else {
        v
    };
    let f = m % 1_000_000;
    crate::decimal::lemma_whole_digits((m / 1_000_000) as nat);
    if f != 0 {
        crate::decimal::lemma_fraction_digits(f as nat);
    }
}

pub proof fn lemma_last_index_append(a: Seq<char>, b: Seq<char>, c: char)
    requires
        free_of(b, c),
    ensures
        last_index(a + b, c) == last_index(a, c),
    decreases b.len(),
{
    if b.len() == 0 {
        assert(a + b =~= a);
    } else {
        assert((a + b).drop_last() =~= a + b.drop_last());
        lemma_last_index_append(a, b.drop_last(), c);
    }
}

proof fn lemma_split_free(a: Seq<char>, c: char)
    requires
        free_of(a, c),
    ensures
        split_on(a, c) == seq![a],
{
    crate::text::lemma_index_of_nonneg(a, c);
}

/// The fields after the tag of a LINE record are the four numbers.
proof fn lemma_line_fields(l: Line, id: nat)
    ensures
        split_on(after_tag(line_text(l, id)), ',') == seq![
            format_fixed_spec(l.p1.x as int),
            format_fixed_spec(l.p1.y as int),
            format_fixed_spec(l.p2.x as int),
            format_fixed_spec(l.p2.y as int),
        ],
{
    let fx1 = format_fixed_spec(l.p1.x as int);
    let fy1 = format_fixed_spec(l.p1.y as int);
    let fx2 = format_fixed_spec(l.p2.x as int);
    let fy2 = format_fixed_spec(l.p2.y as int);
    lemma_fixed_chars(l.p1.x as int);
    lemma_fixed_chars(l.p1.y as int);
    lemma_fixed_chars(l.p2.x as int);
    lemma_fixed_chars(l.p2.y as int);
    let head = seq!['L'] + padded_number(id, 5) + seq!['=', 'L', 'I', 'N', 'E', '/'];
    let comma = seq![','];
    let body = fx1 + comma + fy1 + comma + fx2 + comma + fy2;
    assert(line_text(l, id) == head + body);
    assert(free_of(comma, '/'));
    assert(free_of(fx1, '/') && free_of(fy1, '/') && free_of(fx2, '/') && free_of(fy2, '/'));
    assert(free_of(fx1, ',') && free_of(fy1, ',') && free_of(fx2, ',') && free_of(fy2, ','));
    lemma_free_concat(fx1, comma, '/');
    lemma_free_concat(fx1 + comma, fy1, '/');
    lemma_free_concat(fx1 + comma + fy1, comma, '/');
    lemma_free_concat(fx1 + comma + fy1 + comma, fx2, '/');
    lemma_free_concat(fx1 + comma + fy1 + comma + fx2, comma, '/');
    lemma_free_concat(fx1 + comma + fy1 + comma + fx2 + comma, fy2, '/');
    lemma_last_index_append(head, body, '/');
    assert(head.last() == '/');
    assert(last_index(head, '/') == head.len() - 1);
    assert(after_last(head + body, '/') =~= body);
    lemma_padded_digits(id, 5);
    let pad = padded_number(id, 5);
    assert(free_of(pad, '\n'));
    assert(free_of(seq!['L'], '\n'));
    assert(free_of(seq!['=', 'L', 'I', 'N', 'E', '/'], '\n'));
    lemma_free_concat(seq!['L'], pad, '\n');
    lemma_free_concat(seq!['L'] + pad, seq!['=', 'L', 'I', 'N', 'E', '/'], '\n');
    assert(free_of(comma, '\n'));
    assert(free_of(fx1, '\n') && free_of(fy1, '\n') && free_of(fx2, '\n') && free_of(fy2, '\n'));
    lemma_free_concat(fx1, comma, '\n');
    lemma_free_concat(fx1 + comma, fy1, '\n');
    lemma_free_concat(fx1 + comma + fy1, comma, '\n');
    lemma_free_concat(fx1 + comma + fy1 + comma, fx2, '\n');
    lemma_free_concat(fx1 + comma + fy1 + comma + fx2, comma, '\n');
    lemma_free_concat(fx1 + comma + fy1 + comma + fx2 + comma, fy2, '\n');
    lemma_free_concat(head, body, '\n');
    lemma_after_tag_one_line(head + body);
    lemma_split_free(fy2, ',');
    lemma_split_cons(fx2, fy2, ',');
    lemma_split_cons(fy1, fx2 + comma + fy2, ',');
    lemma_split_cons(fx1, fy1 + comma + fx2 + comma + fy2, ',');
    assert(body =~= fx1 + comma + (fy1 + comma + fx2 + comma + fy2));
    assert(fy1 + comma + fx2 + comma + fy2 =~= fy1 + comma + (fx2 + comma + fy2));
    assert(split_on(body, ',') =~= seq![fx1, fy1, fx2, fy2]);
}

/// Writing a segment as a LINE record and reading the record back gives the
/// same segment, whatever its identifier.
pub proof fn lemma_line_round_trip(l: Line, id: nat)
    ensures
        line_from_text(line_text(l, id)) == Some(l),
{
    lemma_line_fields(l, id);
    lemma_fixed_round_trip(l.p1.x);
    lemma_fixed_round_trip(l.p1.y);
    lemma_fixed_round_trip(l.p2.x);
    lemma_fixed_round_trip(l.p2.y);
}

/// A LINE record does not end in `$`, so it is never taken to go on over
/// the next line.
pub proof fn lemma_line_text_ends(l: Line, id: nat)
    ensures
        line_text(l, id).len() > 0,
        line_text(l, id).last() != '$',
{
    let fy2 = format_fixed_spec(l.p2.y as int);
    lemma_fixed_chars(l.p2.y as int);
    crate::decimal::lemma_format_nonempty(l.p2.y as int);
    assert(fy2.len() > 0);
    let t = line_text(l, id);
    let head = seq!['L'] + padded_number(id, 5) + seq!['=', 'L', 'I', 'N', 'E', '/'] + format_fixed_spec(
        l.p1.x as int,
    ) + seq![','] + format_fixed_spec(l.p1.y as int) + seq![','] + format_fixed_spec(
        l.p2.x as int,
    ) + seq![','];
    assert(t =~= head + fy2);
    assert(t.last() == fy2[fy2.len() - 1]);
}

/// A formatted number holds no `,`, no `/`, no `$` and no newline.
pub proof fn lemma_fixed_free(v: int)
    ensures
        free_of(format_fixed_spec(v), ','),
        free_of(format_fixed_spec(v), '/'),
        free_of(format_fixed_spec(v), '\n'),
        free_of(format_fixed_spec(v), '$'),
{
    lemma_fixed_chars(v);
}

} // verus!
