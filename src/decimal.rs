use vstd::prelude::*;

verus! {

/// Fixed-point units in one drawing unit: numbers keep six decimal places.
pub const UNITS: u64 = 1_000_000;

pub open spec fn is_digit(c: char) -> bool {
    '0' <= c <= '9'
}

/// The character of the decimal digit `d`.
pub open spec fn digit_char(d: int) -> char {
    ((48 + d) as u8) as char
}

pub open spec fn all_digits(s: Seq<char>) -> bool {
    forall|i: int| 0 <= i < s.len() ==> is_digit(#[trigger] s[i])
}

/// The value of a string of decimal digits.
pub open spec fn digits_val(s: Seq<char>) -> int
    decreases s.len(),
{
    if s.len() == 0 {
        0
    } else {
        digits_val(s.drop_last()) * 10 + (s.last() as int - 48)
    }
}

/// The digit at position `i` of `s`, or zero past its end.
pub open spec fn digit_at(s: Seq<char>, i: int) -> int {
    if 0 <= i < s.len() {
        s[i] as int - 48
    } else {
        0
    }
}

/// The first `n` digits of a fraction `s` as an integer, `s` padded with zeros.
pub open spec fn frac_val(s: Seq<char>, n: nat) -> int
    decreases n,
{
    if n == 0 {
        0
    } else {
        frac_val(s, (n - 1) as nat) * 10 + digit_at(s, n - 1)
    }
}

/// The position of the first `c` in `s`, or the length of `s` when there is none.
pub open spec fn index_of(s: Seq<char>, c: char) -> int
    decreases s.len(),
{
    if s.len() == 0 {
        0
    } else if s[0] == c {
        0
    } else {
        1 + index_of(s.drop_first(), c)
    }
}

/// The number written in `s` (an optional `-` or `+`, digits, then
/// optionally `.` and more digits, with at least one digit in all) in
/// fixed-point units, rounded half away from zero at the sixth decimal
/// place; `None` when `s` is not so written or the result does not fit an
/// `i32`.
#[verifier::opaque]
pub open spec fn parse_fixed_spec(s: Seq<char>) -> Option<int> {
    let signed = s.len() > 0 && (s[0] == '-' || s[0] == '+');
    let neg = s.len() > 0 && s[0] == '-';
    let body = if signed {
        s.drop_first()
    } else {
        s
    };
    let d = index_of(body, '.');
    let ip = body.take(d);
    let fp = if d < body.len() {
        body.skip(d + 1)
    } else {
        seq![]
    };
    let up = if digit_at(fp, 6) >= 5 {
        1int
    } else {
        0
    };
    let m = digits_val(ip) * 1_000_000 + frac_val(fp, 6) + up;
    if ip.len() + fp.len() == 0 || !all_digits(ip) || !all_digits(fp) {
        None
    } else if neg && m <= 0x8000_0000 {
        Some(-m)
    } else if !neg && m < 0x8000_0000 {
        Some(m)
    } else {
        None
    }
}

/// The decimal digits of `n`, without leading zeros.
pub open spec fn dec_digits(n: nat) -> Seq<char>
    decreases n,
{
    if n < 10 {
        seq![digit_char(n as int)]
    } else {
        dec_digits(n / 10).push(digit_char((n % 10) as int))
    }
}

/// The last `k` decimal digits of `f`, with leading zeros.
pub open spec fn fixed_digits(f: nat, k: nat) -> Seq<char>
    decreases k,
{
    if k == 0 {
        seq![]
    } else {
        fixed_digits(f / 10, (k - 1) as nat).push(digit_char((f % 10) as int))
    }
}

/// `s` without its trailing `0` digits.
pub open spec fn trim_zeros(s: Seq<char>) -> Seq<char>
    decreases s.len(),
{
    if s.len() > 0 && s.last() == '0' {
        trim_zeros(s.drop_last())
    } else {
        s
    }
}

/// The shortest decimal text of the fixed-point value `v`: a `-` when it is
/// negative, the whole part, and the fraction without trailing zeros after
/// a `.` when there is one.
#[verifier::opaque]
pub open spec fn format_fixed_spec(v: int) -> Seq<char> {
    let m = if v < 0 {
        -v
    } else {
        v
    };
    let sign = if v < 0 {
        seq!['-']
    } else {
        seq![]
    };
    let f = m % 1_000_000;
    sign + dec_digits((m / 1_000_000) as nat) + (if f == 0 {
        seq![]
    } else {
        seq!['.'] + trim_zeros(fixed_digits(f as nat, 6))
    })
}

/// Reads a number written in decimal as fixed-point units (see `parse_fixed_spec`).
pub fn parse_fixed(s: &[char]) -> (r: Option<i32>)
    ensures
        r is Some <==> parse_fixed_spec(s@) is Some,
        r is Some ==> parse_fixed_spec(s@) == Some(r->0 as int),
{
    reveal(parse_fixed_spec);
    let n = s.len();
    let neg = n > 0 && s[0] == '-';
    let signed = n > 0 && (s[0] == '-' || s[0] == '+');
    let start: usize = if signed {
        1
    } else {
        0
    };
    let ghost body = if signed {
        s@.drop_first()
    } else {
        s@
    };
    assert(body =~= s@.skip(start as int));
    let mut d: usize = start;
    while d < n && s[d] != '.'
        invariant
            start <= d <= n,
            n == s@.len(),
            body == s@.skip(start as int),
            index_of(body, '.') == (d - start) + index_of(s@.skip(d as int), '.'),
        decreases n - d,
    {
        assert(s@.skip(d as int).drop_first() =~= s@.skip(d + 1));
        d += 1;
    }
    assert(index_of(s@.skip(d as int), '.') == 0);
    let ghost ip = body.take(d - start);
    let ghost fp = if d < n {
        body.skip(d - start + 1)
    } else {
        seq![]
    };
    assert(ip =~= s@.subrange(start as int, d as int));
    assert(fp.len() > 0 ==> fp =~= s@.subrange(d + 1, n as int));
    assert(!all_digits(ip) ==> parse_fixed_spec(s@) is None);
    assert(!all_digits(fp) ==> parse_fixed_spec(s@) is None);
    if d == start && n - d <= 1 {
        assert(ip.len() + fp.len() == 0);
        return None;
    }
    // The whole part, saturated at `CAP`: past it the number is out of range anyway.
    let mut acc: u64 = 0;
    let mut k: usize = start;
    assert(s@.subrange(start as int, start as int) =~= Seq::<char>::empty());
    while k < d
        invariant
            start <= k <= d <= n,
            n == s@.len(),
            ip == s@.subrange(start as int, d as int),
            !all_digits(ip) ==> parse_fixed_spec(s@) is None,
            all_digits(s@.subrange(start as int, k as int)),
            acc == (if digits_val(s@.subrange(start as int, k as int)) < 10000 {
                digits_val(s@.subrange(start as int, k as int))
            } else {
                10000
            }),
            digits_val(s@.subrange(start as int, k as int)) >= 0,
        decreases d - k,
    {
        let c = s[k];
        if c < '0' || c > '9' {
            assert(ip[k - start] == c);
            return None;
        }
        assert(s@.subrange(start as int, k + 1).drop_last() =~= s@.subrange(start as int, k as int));
        acc = acc * 10 + (c as u64 - 48);
        if acc > 10000 {
            acc = 10000;
        }
        k += 1;
    }
    let fstart: usize = if d < n {
        d + 1
    } else {
        n
    };
    assert(fp =~= s@.subrange(fstart as int, n as int));
    let mut k: usize = fstart;
    while k < n
        invariant
            fstart <= k <= n,
            n == s@.len(),
            fp == s@.subrange(fstart as int, n as int),
            !all_digits(fp) ==> parse_fixed_spec(s@) is None,
            forall|i: int| fstart <= i < k ==> is_digit(#[trigger] s@[i]),
        decreases n - k,
    {
        if s[k] < '0' || s[k] > '9' {
            assert(fp[k - fstart] == s@[k as int]);
            return None;
        }
        k += 1;
    }
    assert(all_digits(fp));
    let mut frac: u64 = 0;
    let mut j: usize = 0;
    while j < 6
        invariant
            j <= 6,
            fstart <= n,
            n == s@.len(),
            fp == s@.subrange(fstart as int, n as int),
            all_digits(fp),
            frac == frac_val(fp, j as nat),
            frac < pow10(j as nat),
        decreases 6 - j,
    {
        proof {
            lemma_pow10_small(j as nat);
            if j < n - fstart {
                assert(fp[j as int] == s@[fstart + j]);
            }
        }
        let dg: u64 = if j < n - fstart {
            s[fstart + j] as u64 - 48
        } else {
            0
        };
        assert(dg == digit_at(fp, j as int));
        assert(frac * 10 + dg < pow10((j + 1) as nat)) by (nonlinear_arith)
            requires frac < pow10(j as nat), dg < 10, pow10((j + 1) as nat) == 10 * pow10(j as nat);
        frac = frac * 10 + dg;
        j += 1;
    }
    proof {
        lemma_pow10_6();
        if n - fstart > 6 {
            assert(fp[6] == s@[fstart + 6]);
        }
    }
    let up: u64 = if n - fstart > 6 && s[fstart + 6] >= '5' {
        1
    } else {
        0
    };
    assert(up == (if digit_at(fp, 6) >= 5 {
        1int
    } else {
        0
    }));
    if acc > 2147 {
        return None;
    }
    let m: u64 = acc * 1_000_000 + frac + up;
    if neg && m <= 0x8000_0000 {
        Some((-(m as i64)) as i32)
    } else if !neg && m < 0x8000_0000 {
        Some(m as i32)
    } else {
        None
    }
}

pub open spec fn pow10(k: nat) -> int
    decreases k,
{
    if k == 0 {
        1
    } else {
        10 * pow10((k - 1) as nat)
    }
}

proof fn lemma_pow10_small(j: nat)
    requires
        j < 6,
    ensures
        pow10(j) <= 100_000,
        pow10(j + 1) == 10 * pow10(j),
{
    reveal_with_fuel(pow10, 7);
    if j == 0 {
    } else if j == 1 {
    } else if j == 2 {
    } else if j == 3 {
    } else if j == 4 {
    } else {
    }
}

proof fn lemma_pow10_6()
    ensures
        pow10(6) == 1_000_000,
{
    reveal_with_fuel(pow10, 7);
}

/// Appends the decimal digits of `n`.
pub fn push_dec(out: &mut Vec<char>, n: u64)
    ensures
        final(out)@ == old(out)@ + dec_digits(n as nat),
    decreases n,
{
    if n >= 10 {
        push_dec(out, n / 10);
    }
    out.push((48 + (n % 10) as u8) as char);
    proof {
        if n >= 10 {
            assert(final(out)@ =~= old(out)@ + dec_digits(n as nat));
        } else {
            assert(final(out)@ =~= old(out)@ + dec_digits(n as nat));
        }
    }
}

/// Appends the last `k` decimal digits of `f`, with leading zeros.
fn push_fixed(out: &mut Vec<char>, f: u64, k: u32)
    ensures
        final(out)@ == old(out)@ + fixed_digits(f as nat, k as nat),
    decreases k,
{
    if k > 0 {
        push_fixed(out, f / 10, k - 1);
        out.push((48 + (f % 10) as u8) as char);
    }
    assert(final(out)@ =~= old(out)@ + fixed_digits(f as nat, k as nat));
}

/// The shortest decimal text of a fixed-point value (see `format_fixed_spec`).
pub fn format_fixed(v: i32) -> (r: Vec<char>)
    ensures
        r@ == format_fixed_spec(v as int),
{
    reveal(format_fixed_spec);
    let m: u64 = if v < 0 {
        (-(v as i64)) as u64
    } else {
        v as u64
    };
    let mut out: Vec<char> = Vec::new();
    if v < 0 {
        out.push('-');
    }
    push_dec(&mut out, m / 1_000_000);
    let f = m % 1_000_000;
    let ghost head = out@;
    if f != 0 {
        out.push('.');
        let mut fd: Vec<char> = Vec::new();
        push_fixed(&mut fd, f, 6);
        trim_zeros_vec(&mut fd);
        out.append(&mut fd);
        assert(out@ =~= head + (seq!['.'] + trim_zeros(fixed_digits(f as nat, 6))));
    } else {
        assert(out@ =~= head + Seq::<char>::empty());
    }
    proof {
        let sign: Seq<char> = if v < 0 {
            seq!['-']
        } else {
            seq![]
        };
        assert(head =~= sign + dec_digits((m / 1_000_000) as nat));
    }
    out
}

fn trim_zeros_vec(v: &mut Vec<char>)
    ensures
        final(v)@ == trim_zeros(old(v)@),
{
    while v.len() > 0 && v[v.len() - 1] == '0'
        invariant
            trim_zeros(v@) == trim_zeros(old(v)@),
        decreases v@.len(),
    {
        v.pop();
    }
}

proof fn lemma_dec_digits(n: nat)
    ensures
        dec_digits(n).len() >= 1,
        all_digits(dec_digits(n)),
        digits_val(dec_digits(n)) == n,
    decreases n,
{
    let d = dec_digits(n);
    if n >= 10 {
        lemma_dec_digits(n / 10);
        assert(d.drop_last() =~= dec_digits(n / 10));
        assert(digit_char((n % 10) as int) as int - 48 == n % 10);
        assert((n / 10) * 10 + n % 10 == n);
        assert(d.last() == digit_char((n % 10) as int));
        assert(digits_val(d) == digits_val(d.drop_last()) * 10 + (d.last() as int - 48));
    } else {
        assert(d.drop_last() =~= Seq::<char>::empty());
        assert(digit_char(n as int) as int - 48 == n);
        assert(digits_val(d) == digits_val(d.drop_last()) * 10 + (d.last() as int - 48));
    }
}

/// A prefix without `c` shifts the first `c` by its length.
pub proof fn lemma_index_of_append(a: Seq<char>, b: Seq<char>, c: char)
    requires
        forall|i: int| 0 <= i < a.len() ==> a[i] != c,
    ensures
        index_of(a + b, c) == a.len() + index_of(b, c),
    decreases a.len(),
{
    if a.len() > 0 {
        assert((a + b).drop_first() =~= a.drop_first() + b);
        lemma_index_of_append(a.drop_first(), b, c);
    } else {
        assert(a + b =~= b);
    }
}

proof fn lemma_frac_agree(a: Seq<char>, b: Seq<char>, n: nat)
    requires
        forall|i: int| 0 <= i < n ==> digit_at(a, i) == digit_at(b, i),
    ensures
        frac_val(a, n) == frac_val(b, n),
    decreases n,
{
    if n > 0 {
        lemma_frac_agree(a, b, (n - 1) as nat);
    }
}

proof fn lemma_fixed_digits(f: nat, k: nat)
    requires
        f < pow10(k),
    ensures
        fixed_digits(f, k).len() == k,
        all_digits(fixed_digits(f, k)),
        frac_val(fixed_digits(f, k), k) == f,
    decreases k,
{
    if k > 0 {
        let g = f / 10;
        assert(g < pow10((k - 1) as nat)) by (nonlinear_arith)
            requires g == f / 10, f < pow10(k), pow10(k) == 10 * pow10((k - 1) as nat);
        lemma_fixed_digits(g, (k - 1) as nat);
        let s = fixed_digits(f, k);
        let t = fixed_digits(g, (k - 1) as nat);
        assert(s == t.push(digit_char((f % 10) as int)));
        lemma_frac_agree(s, t, (k - 1) as nat);
        assert(digit_at(s, k - 1) == f % 10);
    } else {
        assert(f == 0);
    }
}

proof fn lemma_trim_zeros(s: Seq<char>)
    requires
        all_digits(s),
    ensures
        all_digits(trim_zeros(s)),
        trim_zeros(s).len() <= s.len(),
        forall|i: int| #![auto] digit_at(trim_zeros(s), i) == digit_at(s, i),
        forall|i: int| 0 <= i < trim_zeros(s).len() ==> trim_zeros(s)[i] == s[i],
    decreases s.len(),
{
    if s.len() > 0 && s.last() == '0' {
        let d = s.drop_last();
        lemma_trim_zeros(d);
        assert forall|i: int| #![auto] digit_at(trim_zeros(s), i) == digit_at(s, i) by {
            assert(digit_at(trim_zeros(d), i) == digit_at(d, i));
            if 0 <= i < d.len() {
                assert(d[i] == s[i]);
            }
        }
        assert forall|i: int| 0 <= i < trim_zeros(s).len() implies trim_zeros(s)[i] == s[i] by {
            assert(trim_zeros(d)[i] == d[i]);
        }
    }
}

proof fn lemma_frac_empty(n: nat)
    ensures
        frac_val(seq![], n) == 0,
    decreases n,
{
    if n > 0 {
        lemma_frac_empty((n - 1) as nat);
    }
}

/// Reading back the text that `format_fixed` writes gives the same value.
pub proof fn lemma_fixed_round_trip(v: i32)
    ensures
        parse_fixed_spec(format_fixed_spec(v as int)) == Some(v as int),
{
    reveal(parse_fixed_spec);
    reveal(format_fixed_spec);
    let vi = v as int;
    let m = if vi < 0 {
        -vi
    } else {
        vi
    };
    let sign: Seq<char> = if vi < 0 {
        seq!['-']
    } else {
        seq![]
    };
    let f = m % 1_000_000;
    let w = m / 1_000_000;
    let ip = dec_digits(w as nat);
    let tail: Seq<char> = if f == 0 {
        seq![]
    } else {
        seq!['.'] + trim_zeros(fixed_digits(f as nat, 6))
    };
    let s = format_fixed_spec(vi);
    assert(s == sign + ip + tail);
    lemma_dec_digits(w as nat);
    lemma_pow10_6();
    lemma_fixed_digits(f as nat, 6);
    lemma_trim_zeros(fixed_digits(f as nat, 6));
    let body = ip + tail;
    if vi < 0 {
        assert(s =~= seq!['-'] + body);
        assert(s[0] == '-');
        assert(s.drop_first() =~= body);
    } else {
        assert(s =~= body);
        assert(is_digit(ip[0]));
        assert(s[0] == ip[0]);
    }
    lemma_index_of_append(ip, tail, '.');
    assert(index_of(tail, '.') == 0);
    assert(index_of(body, '.') == ip.len());
    assert(body.take(ip.len() as int) =~= ip);
    let fp: Seq<char> = if f == 0 {
        seq![]
    } else {
        trim_zeros(fixed_digits(f as nat, 6))
    };
    if f == 0 {
        assert(body.len() == ip.len());
        lemma_frac_empty(6);
    } else {
        assert(body.skip(ip.len() as int + 1) =~= fp);
        lemma_frac_agree(fp, fixed_digits(f as nat, 6), 6);
    }
    assert(frac_val(fp, 6) == f);
    assert(all_digits(fp));
    assert(w * 1_000_000 + f == m);
}

/// The whole part that `format_fixed_spec` writes is made of digits.
pub proof fn lemma_whole_digits(n: nat)
    ensures
        all_digits(dec_digits(n)),
{
    lemma_dec_digits(n);
}

/// The fraction digits that `format_fixed_spec` writes are digits.
pub proof fn lemma_fraction_digits(f: nat)
    requires
        f < 1_000_000,
    ensures
        all_digits(trim_zeros(fixed_digits(f, 6))),
{
    lemma_pow10_6();
    lemma_fixed_digits(f, 6);
    lemma_trim_zeros(fixed_digits(f, 6));
}

/// The number written in `s` as a `u64`: an optional `+` and at least one
/// digit; `None` otherwise or when it is too large.
pub open spec fn parse_u64_spec(s: Seq<char>) -> Option<nat> {
    let body = if s.len() > 0 && s[0] == '+' {
        s.drop_first()
    } else {
        s
    };
    if body.len() > 0 && all_digits(body) && digits_val(body) <= u64::MAX {
        Some(digits_val(body) as nat)
    } else {
        None
    }
}

/// Reads a `u64` written in decimal (see `parse_u64_spec`).
pub fn parse_u64(s: &[char]) -> (r: Option<u64>)
    ensures
        r is Some <==> parse_u64_spec(s@) is Some,
        r is Some ==> parse_u64_spec(s@) == Some(r->0 as nat),
{
    let n = s.len();
    let start: usize = if n > 0 && s[0] == '+' {
        1
    } else {
        0
    };
    let ghost body = if n > 0 && s@[0] == '+' {
        s@.drop_first()
    } else {
        s@
    };
    assert(body =~= s@.subrange(start as int, n as int));
    assert(!all_digits(body) ==> parse_u64_spec(s@) is None);
    if start == n {
        return None;
    }
    let cap: u128 = 0x1_0000_0000_0000_0000;
    let mut acc: u128 = 0;
    let mut k: usize = start;
    assert(s@.subrange(start as int, start as int) =~= Seq::<char>::empty());
    while k < n
        invariant
            start <= k <= n,
            n == s@.len(),
            cap == 0x1_0000_0000_0000_0000,
            body == s@.subrange(start as int, n as int),
            !all_digits(body) ==> parse_u64_spec(s@) is None,
            body.len() > 0 && all_digits(body) ==> parse_u64_spec(s@) == (if digits_val(body)
                <= u64::MAX {
                Some(digits_val(body) as nat)
            } else {
                None
            }),
            all_digits(s@.subrange(start as int, k as int)),
            digits_val(s@.subrange(start as int, k as int)) >= 0,
            acc == (if digits_val(s@.subrange(start as int, k as int)) < cap {
                digits_val(s@.subrange(start as int, k as int))
            } else {
                cap as int
            }),
        decreases n - k,
    {
        let c = s[k];
        if c < '0' || c > '9' {
            assert(body[k - start] == c);
            return None;
        }
        assert(s@.subrange(start as int, k + 1).drop_last() =~= s@.subrange(start as int, k as int));
        acc = acc * 10 + (c as u128 - 48);
        if acc > cap {
            acc = cap;
        }
        k += 1;
    }
    assert(s@.subrange(start as int, n as int) == body);
    if acc >= cap {
        None
    } else {
        Some(acc as u64)
    }
}

/// A formatted number is never empty.
pub proof fn lemma_format_nonempty(v: int)
    ensures
        format_fixed_spec(v).len() > 0,
{
    reveal(format_fixed_spec);
    let m = if v < 0 {
        -v
    } else {
        v
    };
    lemma_dec_digits((m / 1_000_000) as nat);
}

} // verus!
