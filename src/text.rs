use vstd::prelude::*;

use crate::decimal::{dec_digits, index_of, lemma_index_of_append};

verus! {

/// The characters of `s`.
pub fn chars_of(s: &str) -> (r: Vec<char>)
    ensures
        r@ == s@,
{
    let n = s.unicode_len();
    let mut out: Vec<char> = Vec::new();
    let mut i: usize = 0;
    while i < n
        invariant
            i <= n,
            n == s@.len(),
            out@ == s@.take(i as int),
        decreases n - i,
    {
        out.push(s.get_char(i));
        assert(out@ =~= s@.take(i + 1));
        i += 1;
    }
    assert(s@.take(n as int) =~= s@);
    out
}

/// Relies on `FromIterator<char>` for `String`: the string holds exactly the
/// characters given, in order.
#[verifier::external_body]
pub fn string_of(v: &Vec<char>) -> (r: String)
    ensures
        r@ == v@,
{
    v.iter().collect()
}

/// The position of the last `c` in `s`, or -1 when there is none.
pub open spec fn last_index(s: Seq<char>, c: char) -> int
    decreases s.len(),
{
    if s.len() == 0 {
        -1
    } else if s.last() == c {
        s.len() - 1
    } else {
        last_index(s.drop_last(), c)
    }
}

/// What follows the last `c` in `s`; all of `s` when it holds none.
pub open spec fn after_last(s: Seq<char>, c: char) -> Seq<char> {
    s.skip(last_index(s, c) + 1)
}

/// The pieces of `s` between the occurrences of `c`.
pub open spec fn split_on(s: Seq<char>, c: char) -> Seq<Seq<char>>
    decreases s.len(),
{
    let p = index_of(s, c);
    if p < 0 || p >= s.len() {
        seq![s]
    } else {
        seq![s.take(p)] + split_on(s.skip(p + 1), c)
    }
}

/// `s` holds no `c`.
pub open spec fn free_of(s: Seq<char>, c: char) -> bool {
    forall|i: int| 0 <= i < s.len() ==> s[i] != c
}

/// `d` with zeros put in front up to `w` characters.
pub open spec fn zero_padded(d: Seq<char>, w: nat) -> Seq<char> {
    if d.len() < w {
        Seq::new((w - d.len()) as nat, |i: int| '0') + d
    } else {
        d
    }
}

/// The decimal digits of `n`, zero-padded to at least `w` characters.
pub open spec fn padded_number(n: nat, w: nat) -> Seq<char> {
    zero_padded(dec_digits(n), w)
}

/// The index just past the last `c` in `s` (0 when there is none).
pub fn after_last_start(s: &[char], c: char) -> (r: usize)
    ensures
        r == last_index(s@, c) + 1,
        r <= s@.len(),
{
    let mut i: usize = s.len();
    assert(s@.take(i as int) =~= s@);
    while i > 0 && s[i - 1] != c
        invariant
            i <= s@.len(),
            last_index(s@, c) == last_index(s@.take(i as int), c),
        decreases i,
    {
        assert(s@.take(i as int).drop_last() =~= s@.take(i - 1));
        i -= 1;
    }
    i
}

/// The bounds `(start, end)` in `s` of each piece between occurrences of `c`.
pub fn split_bounds(s: &[char], c: char) -> (r: Vec<(usize, usize)>)
    ensures
        r@.len() == split_on(s@, c).len(),
        forall|k: int|
            0 <= k < r@.len() ==> {
                &&& (#[trigger] r@[k]).0 <= r@[k].1 <= s@.len()
                &&& s@.subrange(r@[k].0 as int, r@[k].1 as int) == split_on(s@, c)[k]
            },
{
    let n = s.len();
    let mut out: Vec<(usize, usize)> = Vec::new();
    let mut start: usize = 0;
    let mut k: usize = 0;
    let ghost mut done: Seq<Seq<char>> = seq![];
    assert(s@.skip(0) =~= s@);
    while k < n
        invariant
            start <= k <= n,
            n == s@.len(),
            split_on(s@, c) == done + split_on(s@.skip(start as int), c),
            index_of(s@.skip(start as int), c) == (k - start) + index_of(s@.skip(k as int), c),
            out@.len() == done.len(),
            forall|m: int|
                0 <= m < out@.len() ==> {
                    &&& (#[trigger] out@[m]).0 <= out@[m].1 <= s@.len()
                    &&& s@.subrange(out@[m].0 as int, out@[m].1 as int) == done[m]
                },
        decreases n - k,
    {
        if s[k] == c {
            let ghost rest = s@.skip(start as int);
            proof {
                lemma_index_of_nonneg(s@.skip(k as int), c);
            }
            assert(index_of(s@.skip(k as int), c) == 0);
            assert(rest.take(k - start) =~= s@.subrange(start as int, k as int));
            assert(rest.skip(k - start + 1) =~= s@.skip(k + 1));
            proof {
                done = done.push(s@.subrange(start as int, k as int));
            }
            assert(split_on(s@, c) =~= done + split_on(s@.skip(k + 1), c));
            out.push((start, k));
            start = k + 1;
            assert(s@.skip(start as int) =~= s@.skip(k + 1));
        } else {
            assert(s@.skip(k as int).drop_first() =~= s@.skip(k + 1));
        }
        k += 1;
    }
    proof {
        let rest = s@.skip(start as int);
        assert(s@.skip(n as int) =~= Seq::<char>::empty());
        assert(index_of(rest, c) == rest.len());
        assert(split_on(rest, c) == seq![rest]);
        done = done.push(s@.subrange(start as int, n as int));
        assert(rest =~= s@.subrange(start as int, n as int));
        assert(split_on(s@, c) =~= done);
    }
    out.push((start, n));
    out
}

pub proof fn lemma_index_of_nonneg(s: Seq<char>, c: char)
    ensures
        0 <= index_of(s, c) <= s.len(),
        index_of(s, c) < s.len() ==> s[index_of(s, c)] == c,
        forall|i: int| 0 <= i < index_of(s, c) ==> s[i] != c,
    decreases s.len(),
{
    if s.len() > 0 && s[0] != c {
        lemma_index_of_nonneg(s.drop_first(), c);
        assert forall|i: int| 0 <= i < index_of(s, c) implies s[i] != c by {
            if i > 0 {
                assert(s.drop_first()[i - 1] == s[i]);
            }
        }
    }
}

/// Appends the decimal digits of `n`, zero-padded to at least `w` characters.
pub fn push_padded(out: &mut Vec<char>, n: u64, w: usize)
    ensures
        final(out)@ == old(out)@ + padded_number(n as nat, w as nat),
{
    let mut digits: Vec<char> = Vec::new();
    crate::decimal::push_dec(&mut digits, n);
    assert(digits@ =~= dec_digits(n as nat));
    let ghost start = out@;
    let mut k: usize = digits.len();
    while k < w
        invariant
            digits@ == dec_digits(n as nat),
            digits@.len() <= k,
            k <= w || k == digits@.len(),
            out@ == start + Seq::new((k - digits@.len()) as nat, |i: int| '0'),
        decreases w - k,
    {
        out.push('0');
        assert(out@ =~= start + Seq::new((k + 1 - digits@.len()) as nat, |i: int| '0'));
        k += 1;
    }
    let ghost d = digits@;
    out.append(&mut digits);
    proof {
        let z = Seq::new((k - d.len()) as nat, |i: int| '0');
        assert(out@ == start + z + d);
        if d.len() < w {
            assert(k == w);
            assert(out@ =~= start + padded_number(n as nat, w as nat));
        } else {
            assert(z =~= Seq::<char>::empty());
            assert(out@ =~= start + padded_number(n as nat, w as nat));
        }
    }
}

/// Whether the characters of `s` are exactly those of `w`.
pub fn is_word(s: &[char], w: &str) -> (r: bool)
    ensures
        r == (s@ == w@),
{
    let n = w.unicode_len();
    if s.len() != n {
        return false;
    }
    let mut i: usize = 0;
    while i < n
        invariant
            i <= n,
            n == w@.len(),
            n == s@.len(),
            forall|k: int| 0 <= k < i ==> s@[k] == w@[k],
        decreases n - i,
    {
        if s[i] != w.get_char(i) {
            return false;
        }
        i += 1;
    }
    assert(s@ =~= w@);
    true
}

/// Appends the characters of `w`.
pub fn push_str(out: &mut Vec<char>, w: &str)
    ensures
        final(out)@ == old(out)@ + w@,
{
    let n = w.unicode_len();
    let mut i: usize = 0;
    while i < n
        invariant
            i <= n,
            n == w@.len(),
            out@ == old(out)@ + w@.take(i as int),
        decreases n - i,
    {
        out.push(w.get_char(i));
        assert(out@ =~= old(out)@ + w@.take(i + 1));
        i += 1;
    }
    assert(w@.take(n as int) =~= w@);
}

/// White space as Unicode's White_Space property lists it.
pub open spec fn is_white(c: char) -> bool {
    let u = c as u32;
    (0x09 <= u <= 0x0d) || u == 0x20 || u == 0x85 || u == 0xa0 || u == 0x1680 || (0x2000 <= u
        <= 0x200a) || u == 0x2028 || u == 0x2029 || u == 0x202f || u == 0x205f || u == 0x3000
}

fn is_white_char(c: char) -> (r: bool)
    ensures
        r == is_white(c),
{
    let u = c as u32;
    (0x09 <= u && u <= 0x0d) || u == 0x20 || u == 0x85 || u == 0xa0 || u == 0x1680 || (0x2000 <= u
        && u <= 0x200a) || u == 0x2028 || u == 0x2029 || u == 0x202f || u == 0x205f || u == 0x3000
}

/// `s` without its leading white space.
pub open spec fn trim_start(s: Seq<char>) -> Seq<char>
    decreases s.len(),
{
    if s.len() > 0 && is_white(s[0]) {
        trim_start(s.drop_first())
    } else {
        s
    }
}

/// `s` without its trailing white space.
pub open spec fn trim_end(s: Seq<char>) -> Seq<char>
    decreases s.len(),
{
    if s.len() > 0 && is_white(s.last()) {
        trim_end(s.drop_last())
    } else {
        s
    }
}

/// `s` without leading and trailing white space.
pub open spec fn trim(s: Seq<char>) -> Seq<char> {
    trim_end(trim_start(s))
}

/// `s` without its trailing `c`s.
pub open spec fn trim_end_of(s: Seq<char>, c: char) -> Seq<char>
    decreases s.len(),
{
    if s.len() > 0 && s.last() == c {
        trim_end_of(s.drop_last(), c)
    } else {
        s
    }
}

/// `w` occurs in `s`.
pub open spec fn has_word(s: Seq<char>, w: Seq<char>) -> bool {
    exists|i: int| 0 <= i && i + w.len() <= s.len() && #[trigger] s.subrange(i, i + w.len()) == w
}

/// `s` without leading and trailing white space.
pub fn trim_chars(s: &Vec<char>) -> (r: Vec<char>)
    ensures
        r@ == trim(s@),
{
    let n = s.len();
    let mut a: usize = 0;
    assert(s@.skip(0) =~= s@);
    while a < n && is_white_char(s[a])
        invariant
            a <= n,
            n == s@.len(),
            trim_start(s@) == trim_start(s@.skip(a as int)),
        decreases n - a,
    {
        assert(s@.skip(a as int).drop_first() =~= s@.skip(a + 1));
        a += 1;
    }
    let mut b: usize = n;
    assert(s@.subrange(a as int, n as int) =~= s@.skip(a as int));
    while b > a && is_white_char(s[b - 1])
        invariant
            a <= b <= n,
            n == s@.len(),
            trim_start(s@) == s@.skip(a as int),
            trim(s@) == trim_end(s@.subrange(a as int, b as int)),
        decreases b,
    {
        assert(s@.subrange(a as int, b as int).drop_last() =~= s@.subrange(a as int, b - 1));
        b -= 1;
    }
    let mut out: Vec<char> = Vec::new();
    let mut k: usize = a;
    while k < b
        invariant
            a <= k <= b <= n,
            n == s@.len(),
            out@ == s@.subrange(a as int, k as int),
        decreases b - k,
    {
        out.push(s[k]);
        assert(out@ =~= s@.subrange(a as int, k + 1));
        k += 1;
    }
    out
}

/// Drops the trailing `c`s of `v`.
pub fn trim_end_vec(v: &mut Vec<char>, c: char)
    ensures
        final(v)@ == trim_end_of(old(v)@, c),
{
    while v.len() > 0 && v[v.len() - 1] == c
        invariant
            trim_end_of(v@, c) == trim_end_of(old(v)@, c),
        decreases v@.len(),
    {
        v.pop();
    }
}

/// Whether `w` occurs in `s`.
pub fn find_word(s: &Vec<char>, w: &str) -> (r: bool)
    ensures
        r == has_word(s@, w@),
{
    let m = w.unicode_len();
    let n = s.len();
    if m > n {
        assert(!has_word(s@, w@));
        return false;
    }
    let mut i: usize = 0;
    while i <= n - m
        invariant
            m == w@.len(),
            n == s@.len(),
            m <= n,
            i <= n - m + 1,
            forall|k: int| 0 <= k < i ==> #[trigger] s@.subrange(k, k + m) != w@,
        decreases n - m + 1 - i,
    {
        let mut j: usize = 0;
        let mut same = true;
        while j < m
            invariant
                j <= m,
                i + m <= n,
                m == w@.len(),
                n == s@.len(),
                same == (forall|t: int| 0 <= t < j ==> s@[i + t] == w@[t]),
            decreases m - j,
        {
            if s[i + j] != w.get_char(j) {
                same = false;
            }
            j += 1;
        }
        if same {
            assert(s@.subrange(i as int, i + m) =~= w@);
            return true;
        }
        assert(s@.subrange(i as int, i + m) != w@) by {
            let t = choose|t: int| 0 <= t < m && s@[i + t] != w@[t];
            assert(s@.subrange(i as int, i + m)[t] == s@[i + t]);
        }
        i += 1;
    }
    assert forall|k: int| 0 <= k && k + w@.len() <= s@.len() implies #[trigger] s@.subrange(
        k,
        k + w@.len(),
    ) != w@ by {
        assert(k < i);
    }
    false
}

/// Whether `s` begins with `w`.
pub fn starts_with_word(s: &Vec<char>, w: &str) -> (r: bool)
    ensures
        r == (s@.len() >= w@.len() && s@.take(w@.len() as int) == w@),
{
    let m = w.unicode_len();
    if s.len() < m {
        return false;
    }
    let mut i: usize = 0;
    while i < m
        invariant
            i <= m,
            m == w@.len(),
            m <= s@.len(),
            forall|k: int| 0 <= k < i ==> s@[k] == w@[k],
        decreases m - i,
    {
        if s[i] != w.get_char(i) {
            assert(s@.take(m as int)[i as int] != w@[i as int]);
            return false;
        }
        i += 1;
    }
    assert(s@.take(m as int) =~= w@);
    true
}

/// The pieces of `f` joined with `c` between them.
pub open spec fn joined(f: Seq<Seq<char>>, c: char) -> Seq<char>
    decreases f.len(),
{
    if f.len() == 0 {
        seq![]
    } else if f.len() == 1 {
        f[0]
    } else {
        f[0] + seq![c] + joined(f.drop_first(), c)
    }
}

pub proof fn lemma_split_cons(a: Seq<char>, b: Seq<char>, c: char)
    requires
        free_of(a, c),
    ensures
        split_on(a + seq![c] + b, c) == seq![a] + split_on(b, c),
{
    let s = a + seq![c] + b;
    crate::decimal::lemma_index_of_append(a, seq![c] + b, c);
    assert(s =~= a + (seq![c] + b));
    assert(index_of(seq![c] + b, c) == 0);
    assert(s.take(a.len() as int) =~= a);
    assert(s.skip(a.len() as int + 1) =~= b);
}

/// Splitting pieces joined with `c` gives the pieces back, when none holds `c`.
pub proof fn lemma_split_joined(f: Seq<Seq<char>>, c: char)
    requires
        f.len() >= 1,
        forall|k: int| 0 <= k < f.len() ==> free_of(#[trigger] f[k], c),
    ensures
        split_on(joined(f, c), c) == f,
    decreases f.len(),
{
    if f.len() == 1 {
        lemma_index_of_nonneg(f[0], c);
        assert(split_on(f[0], c) == seq![f[0]]);
        assert(seq![f[0]] =~= f);
    } else {
        let d = f.drop_first();
        assert forall|k: int| 0 <= k < d.len() implies free_of(#[trigger] d[k], c) by {
            assert(d[k] == f[k + 1]);
        }
        lemma_split_joined(d, c);
        assert(free_of(f[0], c));
        lemma_split_cons(f[0], joined(d, c), c);
        assert(seq![f[0]] + d =~= f);
    }
}

/// Joining two non-empty lists of pieces is joining each and putting `c` between.
pub proof fn lemma_joined_concat(f: Seq<Seq<char>>, g: Seq<Seq<char>>, c: char)
    requires
        f.len() >= 1,
        g.len() >= 1,
    ensures
        joined(f + g, c) == joined(f, c) + seq![c] + joined(g, c),
    decreases f.len(),
{
    if f.len() == 1 {
        assert((f + g).drop_first() =~= g);
        assert((f + g)[0] == f[0]);
    } else {
        lemma_joined_concat(f.drop_first(), g, c);
        assert((f + g).drop_first() =~= f.drop_first() + g);
        assert((f + g)[0] == f[0]);
        assert(joined(f + g, c) =~= joined(f, c) + seq![c] + joined(g, c));
    }
}

/// Pieces free of `d`, joined with a `c` other than `d`, are free of `d`.
pub proof fn lemma_joined_free(f: Seq<Seq<char>>, c: char, d: char)
    requires
        c != d,
        forall|k: int| 0 <= k < f.len() ==> free_of(#[trigger] f[k], d),
    ensures
        free_of(joined(f, c), d),
    decreases f.len(),
{
    if f.len() > 1 {
        let t = f.drop_first();
        assert forall|k: int| 0 <= k < t.len() implies free_of(#[trigger] t[k], d) by {
            assert(t[k] == f[k + 1]);
        }
        lemma_joined_free(t, c, d);
        assert(free_of(f[0], d));
        let j = f[0] + seq![c] + joined(t, c);
        assert forall|i: int| 0 <= i < j.len() implies j[i] != d by {
            if i < f[0].len() {
                assert(j[i] == f[0][i]);
            } else if i == f[0].len() {
            } else {
                assert(j[i] == joined(t, c)[i - f[0].len() - 1]);
            }
        }
    } else if f.len() == 1 {
        assert(free_of(f[0], d));
    }
}

/// What follows the tag of a record: everything up to the last `/` of its
/// first line removed (a newline ends the first line), the whole text when
/// that line holds no `/`.
pub open spec fn after_tag(s: Seq<char>) -> Seq<char> {
    s.skip(last_index(s.take(index_of(s, '\n')), '/') + 1)
}

proof fn lemma_last_index_bounds(s: Seq<char>, c: char)
    ensures
        -1 <= last_index(s, c) < s.len(),
    decreases s.len(),
{
    if s.len() > 0 && s.last() != c {
        lemma_last_index_bounds(s.drop_last(), c);
    }
}

/// The index in `s` where the text after its tag begins (see `after_tag`).
pub fn after_tag_start(s: &[char]) -> (r: usize)
    ensures
        r <= s@.len(),
        s@.skip(r as int) == after_tag(s@),
{
    let n = s.len();
    let mut nl: usize = 0;
    assert(s@.skip(0) =~= s@);
    while nl < n && s[nl] != '\n'
        invariant
            nl <= n,
            n == s@.len(),
            index_of(s@, '\n') == nl + index_of(s@.skip(nl as int), '\n'),
        decreases n - nl,
    {
        assert(s@.skip(nl as int).drop_first() =~= s@.skip(nl + 1));
        nl += 1;
    }
    assert(index_of(s@.skip(nl as int), '\n') == 0);
    let first = &s[0..nl];
    assert(first@ =~= s@.take(nl as int));
    let r = after_last_start(first, '/');
    proof {
        lemma_last_index_bounds(first@, '/');
    }
    r
}

/// In text without newlines, the text after the tag is what follows the last `/`.
pub proof fn lemma_after_tag_one_line(s: Seq<char>)
    requires
        free_of(s, '\n'),
    ensures
        after_tag(s) == after_last(s, '/'),
{
    lemma_index_of_nonneg(s, '\n');
    assert(s.take(s.len() as int) =~= s);
}

/// Two texts free of `c` make a text free of `c`.
pub proof fn lemma_free_concat(a: Seq<char>, b: Seq<char>, c: char)
    requires
        free_of(a, c),
        free_of(b, c),
    ensures
        free_of(a + b, c),
{
    assert forall|i: int| 0 <= i < (a + b).len() implies (a + b)[i] != c by {
        if i < a.len() {
            assert((a + b)[i] == a[i]);
        } else {
            assert((a + b)[i] == b[i - a.len()]);
        }
    }
}

/// A zero-padded number holds digits only.
pub proof fn lemma_padded_digits(n: nat, w: nat)
    ensures
        crate::decimal::all_digits(padded_number(n, w)),
{
    crate::decimal::lemma_whole_digits(n);
    let d = dec_digits(n);
    if d.len() < w {
        let z = Seq::new((w - d.len()) as nat, |i: int| '0');
        assert forall|i: int| 0 <= i < (z + d).len() implies crate::decimal::is_digit(
            #[trigger] (z + d)[i],
        ) by {
            if i >= z.len() {
                assert((z + d)[i] == d[i - z.len()]);
            }
        }
    }
}

} // verus!
