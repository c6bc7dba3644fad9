use vstd::prelude::*;

use crate::decimal::{format_fixed_spec, lemma_fixed_round_trip, parse_fixed, parse_fixed_spec};
use crate::nfl::{coord_of, lemma_fixed_free, lemma_last_index_append, push_fixed_text};
use crate::text::{
    after_last, after_tag, after_tag_start, chars_of, free_of, is_word, joined, last_index,
    lemma_after_tag_one_line, lemma_free_concat, lemma_joined_concat, lemma_joined_free,
    has_word, lemma_padded_digits, lemma_split_joined, padded_number, push_padded, push_str, split_bounds,
    split_on, string_of,
};

verus! {

/// Start angle of an arc that gives none: a full turn from 0 degrees.
pub const DEFAULT_GO_ANGLE: i32 = 0;

/// End angle of an arc that gives none: 360 degrees, in fixed-point units.
pub const DEFAULT_END_ANGLE: i32 = 360_000_000;

/// A circular arc. Arcs never take part in splitting and are carried through
/// unchanged. Lengths are in the same fixed-point unit as point coordinates;
/// angles are in degrees, in that fixed-point unit too.
#[derive(Clone, Copy, Debug, PartialEq, Eq, Structural)]
pub struct Arc {
    pub x: i32,
    pub y: i32,
    pub radius: i32,
    pub go_angle: i32,
    pub end_angle: i32,
}

pub open spec fn word_center() -> Seq<char> {
    seq!['C', 'E', 'N', 'T', 'E', 'R']
}

pub open spec fn word_radius() -> Seq<char> {
    seq!['R', 'A', 'D', 'I', 'U', 'S']
}

pub open spec fn word_goang() -> Seq<char> {
    seq!['G', 'O', 'A', 'N', 'G']
}

pub open spec fn word_endang() -> Seq<char> {
    seq!['E', 'N', 'D', 'A', 'N', 'G']
}

pub open spec fn default_arc() -> Arc {
    Arc { x: 0, y: 0, radius: 0, go_angle: DEFAULT_GO_ANGLE, end_angle: DEFAULT_END_ANGLE }
}

/// `a` with the keyed values of the fields `f` applied in order: `CENTER`
/// takes the next two numbers as the centre, `RADIUS`, `GOANG` and `ENDANG`
/// the next one each; other fields are skipped. `None` when a keyword lacks
/// its numbers.
pub open spec fn arc_fields(f: Seq<Seq<char>>, a: Arc) -> Option<Arc>
    decreases f.len(),
{
    if f.len() == 0 {
        Some(a)
    } else if f[0] == word_center() {
        if f.len() >= 3 && parse_fixed_spec(f[1]) is Some && parse_fixed_spec(f[2]) is Some {
            arc_fields(
                f.skip(3),
                Arc {
                    x: coord_of(f[1]),
                    y: coord_of(f[2]),
                    radius: a.radius,
                    go_angle: a.go_angle,
                    end_angle: a.end_angle,
                },
            )
        } else {
            None
        }
    } else if f[0] == word_radius() || f[0] == word_goang() || f[0] == word_endang() {
        if f.len() >= 2 && parse_fixed_spec(f[1]) is Some {
            let v = coord_of(f[1]);
            arc_fields(
                f.skip(2),
                Arc {
                    x: a.x,
                    y: a.y,
                    radius: if f[0] == word_radius() {
                        v
                    } else {
                        a.radius
                    },
                    go_angle: if f[0] == word_goang() {
                        v
                    } else {
                        a.go_angle
                    },
                    end_angle: if f[0] == word_endang() {
                        v
                    } else {
                        a.end_angle
                    },
                },
            )
        } else {
            None
        }
    } else {
        arc_fields(f.skip(1), a)
    }
}

/// The arc written in a CIRCLE record: the keyed fields after its tag,
/// starting from a full circle of radius 0 at the origin.
pub open spec fn arc_from_text(s: Seq<char>) -> Option<Arc> {
    arc_fields(split_on(after_tag(s), ','), default_arc())
}

/// The CIRCLE record of an arc with identifier `id`; the angles are written
/// only where they differ from a full turn.
pub open spec fn arc_text(a: Arc, id: nat) -> Seq<char> {
    seq!['C'] + padded_number(id, 5) + seq!['=', 'C', 'I', 'R', 'C', 'L', 'E', '/'] + word_center()
        + seq![','] + format_fixed_spec(a.x as int) + seq![','] + format_fixed_spec(a.y as int)
        + seq![','] + word_radius() + seq![','] + format_fixed_spec(a.radius as int) + (if a.go_angle
        != DEFAULT_GO_ANGLE {
        seq![','] + word_goang() + seq![','] + format_fixed_spec(a.go_angle as int)
    } else {
        seq![]
    }) + (if a.end_angle != DEFAULT_END_ANGLE {
        seq![','] + word_endang() + seq![','] + format_fixed_spec(a.end_angle as int)
    } else {
        seq![]
    })
}

impl Arc {
    /// Reads a CIRCLE record (see `arc_from_text`).
    pub fn new(data: &str) -> (r: Option<Arc>)
        ensures
            r == arc_from_text(data@),
    {
        let cs = chars_of(data);
        let all = cs.as_slice();
        let st = after_tag_start(all);
        let rest = &all[st..all.len()];
        assert(rest@ =~= after_tag(data@));
        let b = split_bounds(rest, ',');
        let ghost fields = split_on(rest@, ',');
        proof {
            reveal_strlit("CENTER");
            reveal_strlit("RADIUS");
            reveal_strlit("GOANG");
            reveal_strlit("ENDANG");
            assert("CENTER"@ =~= word_center());
            assert("RADIUS"@ =~= word_radius());
            assert("GOANG"@ =~= word_goang());
            assert("ENDANG"@ =~= word_endang());
        }
        let mut a = Arc {
            x: 0,
            y: 0,
            radius: 0,
            go_angle: DEFAULT_GO_ANGLE,
            end_angle: DEFAULT_END_ANGLE,
        };
        let mut k: usize = 0;
        assert(fields.skip(0) =~= fields);
        while k < b.len()
            invariant
                k <= b@.len(),
                b@.len() == fields.len(),
                forall|m: int|
                    0 <= m < b@.len() ==> {
                        &&& (#[trigger] b@[m]).0 <= b@[m].1 <= rest@.len()
                        &&& rest@.subrange(b@[m].0 as int, b@[m].1 as int) == fields[m]
                    },
                arc_from_text(data@) == arc_fields(fields.skip(k as int), a),
                "CENTER"@ == word_center(),
                "RADIUS"@ == word_radius(),
                "GOANG"@ == word_goang(),
                "ENDANG"@ == word_endang(),
            decreases b@.len() - k,
        {
            let f = &rest[b[k].0..b[k].1];
            let ghost t = fields.skip(k as int);
            assert(t[0] == fields[k as int]);
            if is_word(f, "CENTER") {
                if b.len() - k < 3 {
                    return None;
                }
                let x = parse_fixed(&rest[b[k + 1].0..b[k + 1].1]);
                let y = parse_fixed(&rest[b[k + 2].0..b[k + 2].1]);
                assert(t[1] == fields[k + 1] && t[2] == fields[k + 2]);
                match (x, y) {
                    (Some(x), Some(y)) => {
                        a = Arc { x, y, radius: a.radius, go_angle: a.go_angle, end_angle: a.end_angle };
                    },
                    _ => {
                        return None;
                    },
                }
                assert(t.skip(3) =~= fields.skip(k + 3));
                k += 3;
            } else if is_word(f, "RADIUS") || is_word(f, "GOANG") || is_word(f, "ENDANG") {
                if b.len() - k < 2 {
                    return None;
                }
                let v = parse_fixed(&rest[b[k + 1].0..b[k + 1].1]);
                assert(t[1] == fields[k + 1]);
                match v {
                    Some(v) => {
                        if is_word(f, "RADIUS") {
                            a.radius = v;
                        } else if is_word(f, "GOANG") {
                            a.go_angle = v;
                        } else {
                            a.end_angle = v;
                        }
                    },
                    None => {
                        return None;
                    },
                }
                assert(t.skip(2) =~= fields.skip(k + 2));
                k += 2;
            } else {
                assert(t.skip(1) =~= fields.skip(k + 1));
                k += 1;
            }
        }
        assert(fields.skip(k as int) =~= Seq::<Seq<char>>::empty());
        Some(a)
    }

    /// The CIRCLE record of this arc with identifier `id` (see `arc_text`).
    pub fn to_nfl(&self, id: u64) -> (r: String)
        ensures
            r@ == arc_text(*self, id as nat),
    {
        proof {
            reveal_strlit("=CIRCLE/CENTER,");
            reveal_strlit(",RADIUS,");
            reveal_strlit(",GOANG,");
            reveal_strlit(",ENDANG,");
        }
        let mut out: Vec<char> = Vec::new();
        out.push('C');
        push_padded(&mut out, id, 5);
        push_str(&mut out, "=CIRCLE/CENTER,");
        push_fixed_text(&mut out, self.x);
        out.push(',');
        push_fixed_text(&mut out, self.y);
        push_str(&mut out, ",RADIUS,");
        push_fixed_text(&mut out, self.radius);
        let ghost base = out@;
        if self.go_angle != DEFAULT_GO_ANGLE {
            push_str(&mut out, ",GOANG,");
            push_fixed_text(&mut out, self.go_angle);
        }
        let ghost mid = out@;
        if self.end_angle != DEFAULT_END_ANGLE {
            push_str(&mut out, ",ENDANG,");
            push_fixed_text(&mut out, self.end_angle);
        }
        proof {
            let head = seq!['C'] + padded_number(id as nat, 5) + seq![
                '=',
                'C',
                'I',
                'R',
                'C',
                'L',
                'E',
                '/',
            ] + word_center() + seq![','] + format_fixed_spec(self.x as int) + seq![',']
                + format_fixed_spec(self.y as int) + seq![','] + word_radius() + seq![',']
                + format_fixed_spec(self.radius as int);
            assert(base =~= head);
            let g: Seq<char> = if self.go_angle != DEFAULT_GO_ANGLE {
                seq![','] + word_goang() + seq![','] + format_fixed_spec(self.go_angle as int)
            } else {
                seq![]
            };
            assert(mid =~= head + g);
            let e: Seq<char> = if self.end_angle != DEFAULT_END_ANGLE {
                seq![','] + word_endang() + seq![','] + format_fixed_spec(self.end_angle as int)
            } else {
                seq![]
            };
            assert(out@ =~= head + g + e);
        }
        string_of(&out)
    }
}

/// The fields of an arc's CIRCLE record after its `/`.
pub open spec fn arc_field_list(a: Arc) -> Seq<Seq<char>> {
    seq![
        word_center(),
        format_fixed_spec(a.x as int),
        format_fixed_spec(a.y as int),
        word_radius(),
        format_fixed_spec(a.radius as int),
    ] + (if a.go_angle != DEFAULT_GO_ANGLE {
        seq![word_goang(), format_fixed_spec(a.go_angle as int)]
    } else {
        seq![]
    }) + (if a.end_angle != DEFAULT_END_ANGLE {
        seq![word_endang(), format_fixed_spec(a.end_angle as int)]
    } else {
        seq![]
    })
}

proof fn lemma_joined_five(p0: Seq<char>, p1: Seq<char>, p2: Seq<char>, p3: Seq<char>, p4: Seq<char>)
    ensures
        joined(seq![p0, p1, p2, p3, p4], ',') == p0 + seq![','] + p1 + seq![','] + p2 + seq![',']
            + p3 + seq![','] + p4,
{
    let f = seq![p0, p1, p2, p3, p4];
    let cm = seq![','];
    assert(f.drop_first() =~= seq![p1, p2, p3, p4]);
    assert(f.drop_first().drop_first() =~= seq![p2, p3, p4]);
    assert(f.drop_first().drop_first().drop_first() =~= seq![p3, p4]);
    assert(f.drop_first().drop_first().drop_first().drop_first() =~= seq![p4]);
    assert(joined(seq![p4], ',') == p4);
    assert(joined(seq![p3, p4], ',') == p3 + cm + p4);
    assert(joined(seq![p2, p3, p4], ',') == p2 + cm + (p3 + cm + p4));
    assert(joined(seq![p1, p2, p3, p4], ',') == p1 + cm + (p2 + cm + (p3 + cm + p4)));
    assert(joined(f, ',') == p0 + cm + (p1 + cm + (p2 + cm + (p3 + cm + p4))));
    assert(joined(f, ',') =~= p0 + cm + p1 + cm + p2 + cm + p3 + cm + p4);
}

proof fn lemma_joined_two(p0: Seq<char>, p1: Seq<char>)
    ensures
        joined(seq![p0, p1], ',') == p0 + seq![','] + p1,
{
    assert(seq![p0, p1].drop_first() =~= seq![p1]);
    assert(joined(seq![p1], ',') == p1);
}

/// `base` followed by the pieces of `opt` when `on`, joined.
proof fn lemma_joined_opt(base: Seq<Seq<char>>, opt: Seq<Seq<char>>, on: bool)
    requires
        base.len() >= 1,
        opt.len() >= 1,
    ensures
        joined(base + (if on {
            opt
        } else {
            seq![]
        }), ',') == joined(base, ',') + (if on {
            seq![','] + joined(opt, ',')
        } else {
            seq![]
        }),
{
    if on {
        lemma_joined_concat(base, opt, ',');
        assert(joined(base, ',') + (seq![','] + joined(opt, ',')) =~= joined(base, ',') + seq![',']
            + joined(opt, ','));
    } else {
        assert(base + Seq::<Seq<char>>::empty() =~= base);
        assert(joined(base, ',') + Seq::<char>::empty() =~= joined(base, ','));
    }
}

#[verifier::rlimit(40)]
proof fn lemma_arc_text_joined(a: Arc, id: nat)
    ensures
        arc_text(a, id) == seq!['C'] + padded_number(id, 5) + seq![
            '=',
            'C',
            'I',
            'R',
            'C',
            'L',
            'E',
            '/',
        ] + joined(arc_field_list(a), ','),
{
    let fx = format_fixed_spec(a.x as int);
    let fy = format_fixed_spec(a.y as int);
    let fr = format_fixed_spec(a.radius as int);
    let fg = format_fixed_spec(a.go_angle as int);
    let fe = format_fixed_spec(a.end_angle as int);
    let base = seq![word_center(), fx, fy, word_radius(), fr];
    let cm = seq![','];
    lemma_joined_five(word_center(), fx, fy, word_radius(), fr);
    lemma_joined_two(word_goang(), fg);
    lemma_joined_two(word_endang(), fe);
    let g = seq![word_goang(), fg];
    let e = seq![word_endang(), fe];
    let on_g = a.go_angle != DEFAULT_GO_ANGLE;
    let on_e = a.end_angle != DEFAULT_END_ANGLE;
    let gs: Seq<Seq<char>> = if on_g {
        g
    } else {
        seq![]
    };
    lemma_joined_opt(base, g, on_g);
    lemma_joined_opt(base + gs, e, on_e);
    assert(arc_field_list(a) == base + gs + (if on_e {
        e
    } else {
        seq![]
    }));
    let head = seq!['C'] + padded_number(id, 5) + seq!['=', 'C', 'I', 'R', 'C', 'L', 'E', '/'];
    let gt: Seq<char> = if on_g {
        cm + (word_goang() + cm + fg)
    } else {
        seq![]
    };
    let et: Seq<char> = if on_e {
        cm + (word_endang() + cm + fe)
    } else {
        seq![]
    };
    assert(arc_text(a, id) =~= head + (joined(base, ',') + gt + et));
}

proof fn lemma_arc_field_list_free(a: Arc)
    ensures
        forall|k: int|
            0 <= k < arc_field_list(a).len() ==> free_of(#[trigger] arc_field_list(a)[k], ',')
                && free_of(arc_field_list(a)[k], '/') && free_of(arc_field_list(a)[k], '\n')
                && free_of(arc_field_list(a)[k], '$'),
        arc_field_list(a).len() >= 1,
{
    lemma_fixed_free(a.x as int);
    lemma_fixed_free(a.y as int);
    lemma_fixed_free(a.radius as int);
    lemma_fixed_free(a.go_angle as int);
    lemma_fixed_free(a.end_angle as int);
    let f = arc_field_list(a);
    assert forall|k: int| 0 <= k < f.len() implies free_of(#[trigger] f[k], ',') && free_of(
        f[k],
        '/',
    ) && free_of(f[k], '\n') && free_of(f[k], '$') by {
        if k == 0 || k == 3 || k == 5 || k == 7 {
            assert(f[k] == word_center() || f[k] == word_radius() || f[k] == word_goang() || f[k]
                == word_endang());
        }
    }
}

proof fn lemma_words_differ()
    ensures
        word_center() != word_radius(),
        word_center() != word_goang(),
        word_center() != word_endang(),
        word_radius() != word_goang(),
        word_radius() != word_endang(),
        word_goang() != word_endang(),
{
    assert(word_center()[0] != word_radius()[0]);
    assert(word_center()[0] != word_goang()[0]);
    assert(word_center()[1] != word_endang()[1]);
    assert(word_radius()[0] != word_goang()[0]);
    assert(word_radius()[0] != word_endang()[0]);
    assert(word_goang()[0] != word_endang()[0]);
}

/// Writing an arc as a CIRCLE record and reading the record back gives the
/// same arc, whatever its identifier.
pub proof fn lemma_arc_round_trip(a: Arc, id: nat)
    ensures
        arc_from_text(arc_text(a, id)) == Some(a),
{
    lemma_arc_text_joined(a, id);
    lemma_arc_field_list_free(a);
    let f = arc_field_list(a);
    let head = seq!['C'] + padded_number(id, 5) + seq!['=', 'C', 'I', 'R', 'C', 'L', 'E', '/'];
    let body = joined(f, ',');
    lemma_joined_free(f, ',', '/');
    lemma_last_index_append(head, body, '/');
    assert(head.last() == '/');
    assert(last_index(head, '/') == head.len() - 1);
    assert(after_last(head + body, '/') =~= body);
    lemma_joined_free(f, ',', '\n');
    lemma_padded_digits(id, 5);
    let pad = padded_number(id, 5);
    assert(free_of(pad, '\n'));
    assert(free_of(seq!['C'], '\n'));
    assert(free_of(seq!['=', 'C', 'I', 'R', 'C', 'L', 'E', '/'], '\n'));
    lemma_free_concat(seq!['C'], pad, '\n');
    lemma_free_concat(seq!['C'] + pad, seq!['=', 'C', 'I', 'R', 'C', 'L', 'E', '/'], '\n');
    lemma_free_concat(head, body, '\n');
    lemma_after_tag_one_line(head + body);
    lemma_split_joined(f, ',');
    lemma_words_differ();
    lemma_fixed_round_trip(a.x);
    lemma_fixed_round_trip(a.y);
    lemma_fixed_round_trip(a.radius);
    lemma_fixed_round_trip(a.go_angle);
    lemma_fixed_round_trip(a.end_angle);
    let fx = format_fixed_spec(a.x as int);
    let fy = format_fixed_spec(a.y as int);
    let fr = format_fixed_spec(a.radius as int);
    let fg = format_fixed_spec(a.go_angle as int);
    let fe = format_fixed_spec(a.end_angle as int);
    let d = default_arc();
    let a1 = Arc { x: a.x, y: a.y, radius: d.radius, go_angle: d.go_angle, end_angle: d.end_angle };
    let a2 = Arc { x: a.x, y: a.y, radius: a.radius, go_angle: d.go_angle, end_angle: d.end_angle };
    let a3 = Arc { x: a.x, y: a.y, radius: a.radius, go_angle: a.go_angle, end_angle: d.end_angle };
    let f3 = f.skip(3);
    let f5 = f.skip(5);
    assert(arc_fields(f, d) == arc_fields(f3, a1));
    assert(f3[0] == word_radius() && f3[1] == fr);
    assert(f3.skip(2) =~= f5);
    assert(arc_fields(f3, a1) == arc_fields(f5, a2));
    if a.go_angle != DEFAULT_GO_ANGLE {
        let f7 = f.skip(7);
        assert(f5[0] == word_goang() && f5[1] == fg);
        assert(f5.skip(2) =~= f7);
        assert(arc_fields(f5, a2) == arc_fields(f7, a3));
        if a.end_angle != DEFAULT_END_ANGLE {
            assert(f7[0] == word_endang() && f7[1] == fe);
            assert(f7.skip(2) =~= Seq::<Seq<char>>::empty());
            assert(arc_fields(f7, a3) == arc_fields(Seq::<Seq<char>>::empty(), a));
        } else {
            assert(f7 =~= Seq::<Seq<char>>::empty());
            assert(a3 == a);
        }
    } else {
        assert(a2 == a3);
        if a.end_angle != DEFAULT_END_ANGLE {
            assert(f5[0] == word_endang() && f5[1] == fe);
            assert(f5.skip(2) =~= Seq::<Seq<char>>::empty());
            assert(arc_fields(f5, a2) == arc_fields(Seq::<Seq<char>>::empty(), a));
        } else {
            assert(f5 =~= Seq::<Seq<char>>::empty());
            assert(a2 == a);
        }
    }
}

/// A CIRCLE record is read as an arc: it holds `CIRCLE/` but not `LINE/`,
/// and does not end in `$`.
pub proof fn lemma_arc_text_kind(a: Arc, id: nat)
    ensures
        arc_text(a, id).len() > 0,
        arc_text(a, id).last() != '$',
        has_word(arc_text(a, id), seq!['C', 'I', 'R', 'C', 'L', 'E', '/']),
        !has_word(arc_text(a, id), seq!['L', 'I', 'N', 'E', '/']),
{
    lemma_arc_text_joined(a, id);
    lemma_arc_field_list_free(a);
    let f = arc_field_list(a);
    let pad = padded_number(id, 5);
    let tag = seq!['=', 'C', 'I', 'R', 'C', 'L', 'E', '/'];
    let head = seq!['C'] + pad + tag;
    let body = joined(f, ',');
    let t = head + body;
    assert(arc_text(a, id) == t);
    lemma_joined_free(f, ',', '$');
    lemma_joined_free(f, ',', '/');
    lemma_padded_digits(id, 5);
    assert(free_of(pad, '$'));
    assert(free_of(seq!['C'], '$'));
    assert(free_of(tag, '$'));
    lemma_free_concat(seq!['C'], pad, '$');
    lemma_free_concat(seq!['C'] + pad, tag, '$');
    lemma_free_concat(head, body, '$');
    assert(t[t.len() - 1] != '$');
    let at = pad.len() as int + 2;
    assert(t.subrange(at, at + 7) =~= seq!['C', 'I', 'R', 'C', 'L', 'E', '/']);
    let word = seq!['L', 'I', 'N', 'E', '/'];
    let h = head.len() as int;
    if has_word(t, word) {
        let i = choose|i: int| 0 <= i && i + word.len() <= t.len() && #[trigger] t.subrange(i, i + word.len()) == word;
        assert(t.subrange(i, i + 5)[4] == '/');
        assert(t.subrange(i, i + 5)[0] == 'L');
        assert(t[i + 4] == '/');
        assert(t[i] == 'L');
        if i + 4 < h - 1 {
            let j = i + 4;
            assert(t[j] == head[j]);
            if j == 0 {
            } else if j <= pad.len() {
                assert(head[j] == pad[j - 1]);
            } else {
                assert(head[j] == tag[j - 1 - pad.len()]);
            }
        } else if i + 4 == h - 1 {
            assert(t[i] == head[h - 5]);
            assert(head[h - 5] == tag[3]);
        } else {
            assert(t[i + 4] == body[i + 4 - h]);
        }
    }
}

} // verus!
