use vstd::prelude::*;
use vstd::arithmetic::div_mod::lemma_fundamental_div_mod_converse;

use crate::text::{
    is_ws, chars_of, first_token, leading_word, remove_all, remove_pattern, skip_whitespace, trim_start,
    word_end,
};

verus! {

/// Why a value string could not be decoded.
#[derive(Debug, Clone, Copy, PartialEq, Eq, Structural)]
pub enum DecodeError {
    /// Nothing is left once unit words and whitespace are gone.
    EmptyInput,
    /// The first token is in none of the accepted notations.
    UnrecognizedFormat,
    /// The rounded magnitude does not fit in a `u32`.
    OutOfRange,
}

pub open spec fn is_digit(c: char) -> bool {
    '0' <= c && c <= '9'
}

pub open spec fn all_digits(s: Seq<char>) -> bool {
    forall|i: int| 0 <= i < s.len() ==> is_digit(#[trigger] s[i])
}

pub open spec fn digit_value(c: char) -> nat {
    (c as u32 - '0' as u32) as nat
}

/// The natural number written in decimal by the digits `s` (0 for no digits).
pub open spec fn digits_value(s: Seq<char>) -> nat
    decreases s.len(),
{
    if s.len() == 0 {
        0
    } else {
        digits_value(s.drop_last()) * 10 + digit_value(s.last())
    }
}

pub open spec fn pow10(n: nat) -> nat
    decreases n,
{
    if n == 0 {
        1
    } else {
        10 * pow10((n - 1) as nat)
    }
}

/// `n / d` rounded to the nearest integer, halves away from zero.
pub open spec fn round_half_up(n: nat, d: nat) -> nat {
    if d == 0 {
        0
    } else {
        (2 * n + d) / (2 * d)
    }
}

/// The number `ip.fp` (integer digits `ip`, fraction digits `fp`) times `10^e`,
/// rounded to the nearest integer.
pub open spec fn scaled_round(ip: Seq<char>, fp: Seq<char>, e: nat) -> nat {
    round_half_up(digits_value(ip + fp) * pow10(e), pow10(fp.len()))
}

/// How many digits `s` starts with.
pub open spec fn digit_run(s: Seq<char>) -> nat
    decreases s.len(),
{
    if s.len() > 0 && is_digit(s[0]) {
        1 + digit_run(s.drop_first())
    } else {
        0
    }
}

/// A decimal number without sign or exponent: digits, or digits, a point and
/// digits. Some holds the integer and the fraction digits. At least one digit is
/// needed; `frac_needed` asks for one after the point too.
pub open spec fn decimal_parts(s: Seq<char>, frac_needed: bool) -> Option<(Seq<char>, Seq<char>)> {
    let p = digit_run(s) as int;
    if p == s.len() {
        if p > 0 {
            Some((s, Seq::empty()))
        } else {
            None
        }
    } else if s[p] == '.' && all_digits(s.skip(p + 1)) && (if frac_needed {
        p + 1 < s.len()
    } else {
        s.len() >= 2
    }) {
        Some((s.take(p), s.skip(p + 1)))
    } else {
        None
    }
}

/// Suffix form `<n>r`: a decimal number of ohms.
pub open spec fn suffix_magnitude(tok: Seq<char>) -> Option<nat> {
    if tok.len() > 0 && tok.last() == 'r' {
        match decimal_parts(tok.drop_last(), false) {
            Some((ip, fp)) => Some(scaled_round(ip, fp, 0)),
            None => None,
        }
    } else {
        None
    }
}

pub open spec fn is_code_letter(c: char) -> bool {
    c == 'r' || c == 'k' || c == 'm'
}

pub open spec fn code_exponent(c: char) -> nat {
    if c == 'k' {
        3
    } else if c == 'm' {
        6
    } else {
        0
    }
}

/// Code form `<a><letter><b>`: the letter stands for the decimal point and
/// scales by one (`r`), a thousand (`k`) or a million (`m`).
pub open spec fn code_magnitude(tok: Seq<char>) -> Option<nat> {
    let p = digit_run(tok) as int;
    if 1 <= p && p + 1 < tok.len() && is_code_letter(tok[p]) && all_digits(tok.skip(p + 1)) {
        Some(scaled_round(tok.take(p), tok.skip(p + 1), code_exponent(tok[p])))
    } else {
        None
    }
}

pub open spec fn is_scale_letter(c: char) -> bool {
    c == 'k' || c == 'm' || c == 'g'
}

/// `k` is a thousand, `m` a million (mega, as resistor values write it), `g` a billion.
pub open spec fn scale_exponent(c: char) -> nat {
    if c == 'k' {
        3
    } else if c == 'm' {
        6
    } else if c == 'g' {
        9
    } else {
        0
    }
}

/// Normal form: a decimal number, then at most one scale letter.
pub open spec fn normal_magnitude(tok: Seq<char>) -> Option<nat> {
    let scaled = tok.len() > 0 && is_scale_letter(tok.last());
    let body = if scaled {
        tok.drop_last()
    } else {
        tok
    };
    let e = if scaled {
        scale_exponent(tok.last())
    } else {
        0
    };
    match decimal_parts(body, true) {
        Some((ip, fp)) => Some(scaled_round(ip, fp, e)),
        None => None,
    }
}

/// The rounded magnitude of a token, by the first notation that it is in.
pub open spec fn token_magnitude(tok: Seq<char>) -> Option<nat> {
    if suffix_magnitude(tok) is Some {
        suffix_magnitude(tok)
    } else if code_magnitude(tok) is Some {
        code_magnitude(tok)
    } else {
        normal_magnitude(tok)
    }
}

pub open spec fn within_range(v: nat) -> Result<u32, DecodeError> {
    if v <= u32::MAX {
        Ok(v as u32)
    } else {
        Err(DecodeError::OutOfRange)
    }
}

pub open spec fn token_result(tok: Seq<char>) -> Result<u32, DecodeError> {
    match token_magnitude(tok) {
        Some(v) => within_range(v),
        None => Err(DecodeError::UnrecognizedFormat),
    }
}

/// The unit words `ohms`, `ohm` and the ohm sign, removed in that order.
pub open spec fn strip_units(t: Seq<char>) -> Seq<char> {
    remove_all(
        remove_all(remove_all(t, seq!['o', 'h', 'm', 's']), seq!['o', 'h', 'm']),
        seq!['\u{3c9}'],
    )
}

/// What a value string decodes to once it is in lower case.
pub open spec fn decoded(t: Seq<char>) -> Result<u32, DecodeError> {
    match first_token(strip_units(t)) {
        None => Err(DecodeError::EmptyInput),
        Some(tok) => token_result(tok),
    }
}

/// The lower-case form of a string, as `str::to_lowercase` computes it.
pub uninterp spec fn lower_of(s: Seq<char>) -> Seq<char>;

/// Relies on `str::to_lowercase`: the result depends on the characters of `s` alone.
#[verifier::external_body]
fn lowercase(s: &str) -> (r: String)
    ensures
        r@ == lower_of(s@),
{
    s.to_lowercase()
}

// ---- arithmetic on digit strings ----

pub proof fn lemma_pow10_positive(n: nat)
    ensures
        pow10(n) >= 1,
    decreases n,
{
    if n > 0 {
        lemma_pow10_positive((n - 1) as nat);
    }
}

pub proof fn lemma_pow10_add(a: nat, b: nat)
    ensures
        pow10(a + b) == pow10(a) * pow10(b),
    decreases a,
{
    if a > 0 {
        lemma_pow10_add((a - 1) as nat, b);
        assert((a + b - 1) as nat == (a - 1) as nat + b);
        assert(pow10(a + b) == 10 * pow10((a + b - 1) as nat));
        let x = pow10((a - 1) as nat);
        let y = pow10(b);
        assert(pow10(a) == 10 * x);
        assert(10 * (x * y) == (10 * x) * y) by (nonlinear_arith);
    } else {
        assert(pow10(0) == 1);
        assert(a + b == b);
    }
}

pub proof fn lemma_digits_value_concat(s: Seq<char>, t: Seq<char>)
    ensures
        digits_value(s + t) == digits_value(s) * pow10(t.len()) + digits_value(t),
    decreases t.len(),
{
    if t.len() == 0 {
        assert(s + t =~= s);
        assert(pow10(0) == 1);
        assert(digits_value(t) == 0);
        assert(digits_value(s) * 1 == digits_value(s));
    } else {
        let u = s + t;
        assert(u.drop_last() =~= s + t.drop_last());
        lemma_digits_value_concat(s, t.drop_last());
        let a = digits_value(s);
        let p = pow10(t.drop_last().len());
        let b = digits_value(t.drop_last());
        let d = digit_value(t.last());
        assert(u.last() == t.last());
        assert(digits_value(u) == digits_value(u.drop_last()) * 10 + d);
        assert(digits_value(t) == b * 10 + d);
        assert(pow10(t.len()) == 10 * p);
        assert((a * p + b) * 10 + d == a * (10 * p) + (b * 10 + d)) by (nonlinear_arith);
    }
}

pub proof fn lemma_digits_value_bound(t: Seq<char>)
    requires
        all_digits(t),
    ensures
        digits_value(t) < pow10(t.len()),
    decreases t.len(),
{
    if t.len() > 0 {
        assert(all_digits(t.drop_last()));
        lemma_digits_value_bound(t.drop_last());
        let v = digits_value(t.drop_last());
        let p = pow10(t.drop_last().len());
        assert(is_digit(t[t.len() - 1]));
        assert(v + 1 <= p ==> v * 10 + 10 <= 10 * p) by (nonlinear_arith);
    }
}

pub proof fn lemma_digits_value_prefix(s: Seq<char>, i: int)
    requires
        0 <= i <= s.len(),
    ensures
        digits_value(s.take(i)) <= digits_value(s),
{
    assert(s =~= s.take(i) + s.skip(i));
    lemma_digits_value_concat(s.take(i), s.skip(i));
    lemma_pow10_positive(s.skip(i).len());
    let a = digits_value(s.take(i));
    let p = pow10(s.skip(i).len());
    assert(p >= 1 ==> a * p >= a) by (nonlinear_arith);
}

pub proof fn lemma_round_multiple(m: nat, d: nat)
    requires
        d > 0,
    ensures
        round_half_up(m * d, d) == m,
{
    assert(2 * (m * d) + d == m * (2 * d) + d) by (nonlinear_arith);
    lemma_fundamental_div_mod_converse((2 * (m * d) + d) as int, (2 * d) as int, m as int, d as int);
}

/// Rounding a decimal with `k` fraction digits after scaling by `10^e` keeps the
/// digits up to the new point and looks at one more.
pub proof fn lemma_round_digits(w: Seq<char>, k: nat, e: nat)
    requires
        all_digits(w),
        k <= w.len(),
    ensures
        k <= e ==> round_half_up(digits_value(w) * pow10(e), pow10(k)) == digits_value(w) * pow10(
            (e - k) as nat,
        ),
        k > e ==> round_half_up(digits_value(w) * pow10(e), pow10(k)) == digits_value(
            w.take(w.len() - k + e),
        ) + (if w[w.len() - k + e] >= '5' {
            1nat
        } else {
            0nat
        }),
{
    lemma_pow10_positive(k);
    lemma_pow10_positive(e);
    if k <= e {
        lemma_pow10_add((e - k) as nat, k);
        assert(((e - k) as nat + k) as nat == e);
        let v = digits_value(w);
        let a = pow10((e - k) as nat);
        let b = pow10(k);
        assert(v * (a * b) == (v * a) * b) by (nonlinear_arith);
        lemma_round_multiple(v * a, b);
    } else {
        let m = w.len() - k + e;
        let j = (k - e) as nat;
        let a = w.take(m);
        let b = w.skip(m);
        assert(w =~= a + b);
        assert(b.len() == j);
        lemma_digits_value_concat(a, b);
        lemma_pow10_add(e, j);
        assert(e + j == k);
        assert(all_digits(b));
        lemma_digits_value_bound(b);
        // first digit of the dropped part
        let rest = b.skip(1);
        assert(b =~= seq![b[0]] + rest);
        lemma_digits_value_concat(seq![b[0]], rest);
        assert(seq![b[0]].drop_last() =~= Seq::<char>::empty());
        assert(digits_value(seq![b[0]].drop_last()) == 0);
        assert(seq![b[0]].last() == b[0]);
        assert(digits_value(seq![b[0]]) == digit_value(b[0]));
        assert(all_digits(rest));
        lemma_digits_value_bound(rest);
        assert(pow10(j) == 10 * pow10((j - 1) as nat));
        assert(rest.len() == j - 1);
        assert(is_digit(b[0]));
        assert(b[0] == w[m]);
        let va = digits_value(a);
        let vb = digits_value(b);
        let pe = pow10(e);
        let pj = pow10(j);
        let pr = pow10(rest.len());
        let d0 = digit_value(b[0]);
        let vr = digits_value(rest);
        let bit: nat = if w[m] >= '5' { 1 } else { 0 };
        assert(vb == d0 * pr + vr);
        assert(pj == 10 * pr);
        assert(vr < pr);
        assert(d0 >= 5 <==> w[m] >= '5');
        assert(bit == 1 <==> 2 * vb >= pj) by (nonlinear_arith)
            requires
                vb == d0 * pr + vr,
                pj == 10 * pr,
                vr < pr,
                d0 <= 9,
                bit == 1 <==> d0 >= 5,
                bit <= 1,
        ;
        let n = va * pj + vb;
        let x = 2 * (n * pe) + pe * pj;
        let y = 2 * (pe * pj);
        let r = 2 * vb + pj - bit * (2 * pj);
        assert(x == (va + bit) * y + pe * r && 0 <= pe * r < y) by (nonlinear_arith)
            requires
                x == 2 * (n * pe) + pe * pj,
                y == 2 * (pe * pj),
                n == va * pj + vb,
                r == 2 * vb + pj - bit * (2 * pj),
                vb < pj,
                pe >= 1,
                bit == 1 <==> 2 * vb >= pj,
                bit <= 1,
        ;
        lemma_fundamental_div_mod_converse(x as int, y as int, (va + bit) as int, (pe * r) as int);
    }
}


// ---- executable decoder ----

/// `v` as a `u32`, where it fits.
pub open spec fn fits(v: nat) -> Option<u32> {
    if v <= u32::MAX {
        Some(v as u32)
    } else {
        None
    }
}

/// The characters `s[from..to]` in a vector of their own, after `v`.
fn append_range(v: &mut Vec<char>, s: &Vec<char>, from: usize, to: usize)
    requires
        from <= to <= s.len(),
    ensures
        final(v)@ == old(v)@ + s@.subrange(from as int, to as int),
{
    let mut i = from;
    while i < to
        invariant
            from <= i <= to <= s.len(),
            v@ == old(v)@ + s@.subrange(from as int, i as int),
        decreases to - i,
    {
        v.push(s[i]);
        i = i + 1;
        assert(v@ =~= old(v)@ + s@.subrange(from as int, i as int));
    }
}

/// The digits `w`, read with `k` of them after the point, times `10^e`,
/// rounded to the nearest integer; None where that does not fit in a `u32`.
fn round_scaled(w: &Vec<char>, k: usize, e: usize) -> (r: Option<u32>)
    requires
        all_digits(w@),
        k <= w.len(),
        e <= 9,
    ensures
        r == fits(round_half_up(digits_value(w@) * pow10(e as nat), pow10(k as nat))),
{
    let n = w.len();
    let m = if k <= e {
        n
    } else {
        n - k + e
    };
    let ghost total = round_half_up(digits_value(w@) * pow10(e as nat), pow10(k as nat));
    proof {
        lemma_round_digits(w@, k as nat, e as nat);
        lemma_pow10_positive((e - k) as nat);
        if k <= e {
            assert(w@.take(m as int) =~= w@);
            let v = digits_value(w@);
            let q = pow10((e - k) as nat);
            assert(q >= 1 ==> v * q >= v) by (nonlinear_arith);
        }
    }
    let mut acc: u64 = 0;
    let mut i: usize = 0;
    assert(w@.take(0) =~= Seq::<char>::empty());
    while i < m
        invariant
            n == w.len(),
            m <= n,
            i <= m,
            all_digits(w@),
            acc == digits_value(w@.take(i as int)),
            acc <= u32::MAX,
            k <= n,
            e <= 9,
            total == round_half_up(digits_value(w@) * pow10(e as nat), pow10(k as nat)),
            total >= digits_value(w@.take(m as int)),
            k <= e ==> m == n && total == digits_value(w@) * pow10((e - k) as nat),
            k > e ==> m == n - k + e && total == digits_value(w@.take(m as int)) + (if w@[m as int]
                >= '5' {
                1nat
            } else {
                0nat
            }),
        decreases m - i,
    {
        let c = w[i];
        assert(is_digit(w@[i as int]));
        let d = (c as u32 - '0' as u32) as u64;
        acc = acc * 10 + d;
        assert(w@.take(i + 1).drop_last() =~= w@.take(i as int));
        i = i + 1;
        if acc > u32::MAX as u64 {
            proof {
                assert(w@.take(m as int).take(i as int) =~= w@.take(i as int));
                lemma_digits_value_prefix(w@.take(m as int), i as int);
            }
            return None;
        }
    }
    if k < e {
        let mut z: usize = k;
        assert(w@.take(m as int) =~= w@);
        assert(pow10(0) == 1);
        assert(digits_value(w@) * 1 == digits_value(w@));
        while z < e
            invariant
                k <= z <= e <= 9,
                m == n,
                acc == digits_value(w@) * pow10((z - k) as nat),
                acc <= u32::MAX,
                total == digits_value(w@) * pow10((e - k) as nat),
                total == round_half_up(digits_value(w@) * pow10(e as nat), pow10(k as nat)),
            decreases e - z,
        {
            acc = acc * 10;
            proof {
                let v = digits_value(w@);
                let a = pow10((z - k) as nat);
                assert(pow10((z + 1 - k) as nat) == 10 * a);
                assert(v * (10 * a) == 10 * (v * a)) by (nonlinear_arith);
            }
            z = z + 1;
            if acc > u32::MAX as u64 {
                proof {
                    lemma_pow10_add((z - k) as nat, (e - z) as nat);
                    assert(((z - k) as nat + (e - z) as nat) as nat == (e - k) as nat);
                    lemma_pow10_positive((e - z) as nat);
                    let v = digits_value(w@);
                    let a = pow10((z - k) as nat);
                    let b = pow10((e - z) as nat);
                    assert(b >= 1 ==> v * (a * b) >= v * a) by (nonlinear_arith);
                }
                return None;
            }
        }
    } else if k > e {
        if w[m] >= '5' {
            acc = acc + 1;
            if acc > u32::MAX as u64 {
                return None;
            }
        }
    } else {
        assert(w@.take(m as int) =~= w@);
        assert(pow10(0) == 1);
        assert(digits_value(w@) * 1 == digits_value(w@));
    }
    Some(acc as u32)
}

/// End of the run of digits that starts at `from` and stops by `to`.
fn digit_run_end(s: &Vec<char>, from: usize, to: usize) -> (r: usize)
    requires
        from <= to <= s.len(),
    ensures
        from <= r <= to,
        r - from == digit_run(s@.subrange(from as int, to as int)),
        all_digits(s@.subrange(from as int, r as int)),
{
    let mut i = from;
    while i < to && '0' <= s[i] && s[i] <= '9'
        invariant
            from <= i <= to <= s.len(),
            digit_run(s@.subrange(from as int, to as int)) == (i - from) + digit_run(
                s@.subrange(i as int, to as int),
            ),
            all_digits(s@.subrange(from as int, i as int)),
        decreases to - i,
    {
        assert(s@.subrange(i as int, to as int).drop_first() =~= s@.subrange(i + 1, to as int));
        i = i + 1;
        assert(forall|q: int|
            0 <= q < i - from ==> s@.subrange(from as int, i as int)[q] == s@[from + q]);
        assert(all_digits(s@.subrange(from as int, i as int)));
    }
    i
}

/// Whether every character of `s[from..to]` is a digit.
fn digits_only(s: &Vec<char>, from: usize, to: usize) -> (r: bool)
    requires
        from <= to <= s.len(),
    ensures
        r == all_digits(s@.subrange(from as int, to as int)),
{
    let mut i = from;
    while i < to
        invariant
            from <= i <= to <= s.len(),
            forall|q: int| from <= q < i ==> is_digit(s@[q]),
        decreases to - i,
    {
        if !('0' <= s[i] && s[i] <= '9') {
            assert(s@.subrange(from as int, to as int)[i - from] == s@[i as int]);
            return false;
        }
        i = i + 1;
    }
    assert(forall|q: int|
        0 <= q < to - from ==> s@.subrange(from as int, to as int)[q] == s@[from + q]);
    true
}

/// The fraction digits of `s[..to]` that follow a point at `p`; none when `p`
/// is `to` (a number without a point).
pub open spec fn fraction_after(s: Seq<char>, p: int, to: int) -> Seq<char> {
    if p == to {
        Seq::empty()
    } else {
        s.subrange(p + 1, to)
    }
}

/// Where the integer digits of a decimal number in `s[from..to]` end (see
/// [`decimal_parts`]).
fn decimal_point(s: &Vec<char>, from: usize, to: usize, frac_needed: bool) -> (r: Option<usize>)
    requires
        from <= to <= s.len(),
    ensures
        r is None <==> decimal_parts(s@.subrange(from as int, to as int), frac_needed) is None,
        r matches Some(p) ==> all_digits(s@.subrange(from as int, p as int)) && all_digits(
            fraction_after(s@, p as int, to as int),
        ),
        r matches Some(p) ==> from <= p <= to && decimal_parts(
            s@.subrange(from as int, to as int),
            frac_needed,
        ) == Some(
            (s@.subrange(from as int, p as int), fraction_after(s@, p as int, to as int)),
        ),
{
    let ghost sub = s@.subrange(from as int, to as int);
    let p = digit_run_end(s, from, to);
    if p == to {
        if p > from {
            assert(sub =~= s@.subrange(from as int, p as int));
            assert(all_digits(fraction_after(s@, p as int, to as int)));
            Some(p)
        } else {
            None
        }
    } else {
        assert(sub[p - from] == s@[p as int]);
        assert(sub.skip(p - from + 1) =~= s@.subrange(p + 1, to as int));
        assert(sub.take(p - from) =~= s@.subrange(from as int, p as int));
        let ok = if frac_needed {
            p + 1 < to
        } else {
            to - from >= 2
        };
        if s[p] == '.' && ok && digits_only(s, p + 1, to) {
            Some(p)
        } else {
            None
        }
    }
}

/// The rounded magnitude of the decimal whose integer digits are `s[from..p]`
/// and whose fraction follows a point at `p`, times `10^e`.
fn decimal_value(s: &Vec<char>, from: usize, p: usize, to: usize, e: usize) -> (r: Option<u32>)
    requires
        from <= p <= to <= s.len(),
        e <= 9,
        all_digits(s@.subrange(from as int, p as int)),
        all_digits(fraction_after(s@, p as int, to as int)),
    ensures
        r == fits(
            scaled_round(
                s@.subrange(from as int, p as int),
                fraction_after(s@, p as int, to as int),
                e as nat,
            ),
        ),
{
    let ghost ip = s@.subrange(from as int, p as int);
    let ghost fp = fraction_after(s@, p as int, to as int);
    let mut w: Vec<char> = Vec::new();
    append_range(&mut w, s, from, p);
    let k: usize = if p == to {
        0
    } else {
        append_range(&mut w, s, p + 1, to);
        to - p - 1
    };
    assert(w@ =~= ip + fp);
    assert(all_digits(w@));
    round_scaled(&w, k, e)
}

fn fits_result(v: Option<u32>) -> (r: Result<u32, DecodeError>)
    ensures
        r == (match v {
            Some(x) => Ok(x),
            None => Err(DecodeError::OutOfRange),
        }),
{
    match v {
        Some(x) => Ok(x),
        None => Err(DecodeError::OutOfRange),
    }
}

/// Decodes one lower-case token such as `47r`, `4k7`, `4.7k` or `220`.
pub fn decode_token(tok: &Vec<char>) -> (r: Result<u32, DecodeError>)
    ensures
        r == token_result(tok@),
{
    let n = tok.len();
    // suffix form
    if n > 0 && tok[n - 1] == 'r' {
        assert(tok@.drop_last() =~= tok@.subrange(0, n - 1));
        if let Some(p) = decimal_point(tok, 0, n - 1, false) {
            let v = decimal_value(tok, 0, p, n - 1, 0);
            return fits_result(v);
        }
    }
    // code form
    assert(tok@.subrange(0, n as int) =~= tok@);
    let p = digit_run_end(tok, 0, n);
    if 1 <= p && p < n - 1 && (tok[p] == 'r' || tok[p] == 'k' || tok[p] == 'm') && digits_only(
        tok,
        p + 1,
        n,
    ) {
        let e: usize = if tok[p] == 'k' {
            3
        } else if tok[p] == 'm' {
            6
        } else {
            0
        };
        assert(tok@.take(p as int) =~= tok@.subrange(0, p as int));
        assert(tok@.skip(p + 1) =~= tok@.subrange(p + 1, n as int));
        let v = decimal_value(tok, 0, p, n, e);
        return fits_result(v);
    }
    // normal form
    let scaled = n > 0 && (tok[n - 1] == 'k' || tok[n - 1] == 'm' || tok[n - 1] == 'g');
    let end: usize = if scaled {
        n - 1
    } else {
        n
    };
    let e: usize = if !scaled {
        0
    } else if tok[n - 1] == 'k' {
        3
    } else if tok[n - 1] == 'm' {
        6
    } else {
        9
    };
    if scaled {
        assert(tok@.drop_last() =~= tok@.subrange(0, n - 1));
    }
    if let Some(q) = decimal_point(tok, 0, end, true) {
        let v = decimal_value(tok, 0, q, end, e);
        fits_result(v)
    } else {
        Err(DecodeError::UnrecognizedFormat)
    }
}


/// Decodes a value string that is already in lower case: unit words go, the
/// first whitespace-separated token is read, the rest is ignored.
pub fn decode_lowered(t: &str) -> (r: Result<u32, DecodeError>)
    ensures
        r == decoded(t@),
{
    let chars = chars_of(t);
    let ohms: Vec<char> = vec!['o', 'h', 'm', 's'];
    let ohm: Vec<char> = vec!['o', 'h', 'm'];
    let sign: Vec<char> = vec!['\u{3c9}'];
    assert(ohms@ =~= seq!['o', 'h', 'm', 's']);
    assert(ohm@ =~= seq!['o', 'h', 'm']);
    assert(sign@ =~= seq!['\u{3c9}']);
    let a = remove_pattern(&chars, &ohms);
    let b = remove_pattern(&a, &ohm);
    let u = remove_pattern(&b, &sign);
    assert(u@ == strip_units(t@));
    assert(u@.subrange(0, u.len() as int) =~= u@);
    let i = skip_whitespace(&u, 0);
    if i == u.len() {
        assert(trim_start(u@) =~= Seq::<char>::empty());
        return Err(DecodeError::EmptyInput);
    }
    let j = word_end(&u, i);
    let mut tok: Vec<char> = Vec::new();
    append_range(&mut tok, &u, i, j);
    assert(tok@ =~= leading_word(trim_start(u@)));
    decode_token(&tok)
}

/// Decodes a value string such as `4.7k`, `4k7`, `47R` or `4.7k 0805 Ω` into
/// ohms.
pub fn decode(s: &str) -> (r: Result<u32, DecodeError>)
    ensures
        r == decoded(lower_of(s@)),
{
    let t = lowercase(s);
    decode_lowered(t.as_str())
}

/// Decodes a resistor value string into ohms; None where [`decode`] fails.
pub fn decode_resistance(s: &str) -> (r: Option<u32>)
    ensures
        r == (match decoded(lower_of(s@)) {
            Ok(v) => Some(v),
            Err(_) => None,
        }),
{
    match decode(s) {
        Ok(v) => Some(v),
        Err(_) => None,
    }
}


// ---- laws of the decoder ----

proof fn lemma_remove_absent(s: Seq<char>, pat: Seq<char>)
    requires
        pat.len() > 0,
        forall|i: int| 0 <= i < s.len() ==> s[i] != pat[0],
    ensures
        remove_all(s, pat) == s,
    decreases s.len(),
{
    if s.len() > 0 {
        if pat.len() <= s.len() {
            assert(s.take(pat.len() as int)[0] == s[0]);
        }
        lemma_remove_absent(s.skip(1), pat);
        assert(seq![s[0]] + s.skip(1) =~= s);
    }
}

proof fn lemma_word_without_space(s: Seq<char>)
    requires
        forall|i: int| 0 <= i < s.len() ==> !is_ws(s[i]),
    ensures
        leading_word(s) == s,
    decreases s.len(),
{
    if s.len() > 0 {
        lemma_word_without_space(s.drop_first());
        assert(seq![s[0]] + s.drop_first() =~= s);
    }
}

proof fn lemma_digit_run_prefix(ip: Seq<char>, rest: Seq<char>)
    requires
        all_digits(ip),
        rest.len() == 0 || !is_digit(rest[0]),
    ensures
        digit_run(ip + rest) == ip.len(),
    decreases ip.len(),
{
    if ip.len() > 0 {
        assert((ip + rest).drop_first() =~= ip.drop_first() + rest);
        assert((ip + rest)[0] == ip[0]);
        lemma_digit_run_prefix(ip.drop_first(), rest);
    } else {
        assert(ip + rest =~= rest);
    }
}

/// A token made of digits, points and the letters `r`, `k`, `m`, `g` is its own
/// first token: no unit word or whitespace is in it.
proof fn lemma_plain_token(tok: Seq<char>)
    requires
        tok.len() > 0,
        forall|i: int|
            0 <= i < tok.len() ==> is_digit(#[trigger] tok[i]) || tok[i] == '.' || tok[i] == 'r'
                || tok[i] == 'k' || tok[i] == 'm' || tok[i] == 'g',
    ensures
        decoded(tok) == token_result(tok),
{
    let o = seq!['o', 'h', 'm', 's'];
    let h = seq!['o', 'h', 'm'];
    let w = seq!['\u{3c9}'];
    lemma_remove_absent(tok, o);
    lemma_remove_absent(tok, h);
    lemma_remove_absent(tok, w);
    assert(strip_units(tok) == tok);
    assert(!is_ws(tok[0]));
    assert(trim_start(tok) == tok);
    lemma_word_without_space(tok);
}

/// Suffix form: a decimal number `n` followed by `r` decodes to `n` rounded to
/// the nearest ohm (halves away from zero), or to `OutOfRange` where that does
/// not fit in a `u32`. `n` is its integer digits `ip`, then, where `point`
/// holds, a point and the fraction digits `fp`.
pub proof fn law_suffix_form(ip: Seq<char>, fp: Seq<char>, point: bool)
    requires
        all_digits(ip),
        all_digits(fp),
        point ==> ip.len() + fp.len() >= 1,
        !point ==> ip.len() >= 1 && fp.len() == 0,
    ensures
        decoded(
            (if point {
                ip + seq!['.'] + fp
            } else {
                ip
            }).push('r'),
        ) == within_range(round_half_up(digits_value(ip + fp), pow10(fp.len()))),
{
    let n = if point {
        ip + seq!['.'] + fp
    } else {
        ip
    };
    let tok = n.push('r');
    assert forall|i: int| 0 <= i < tok.len() implies is_digit(#[trigger] tok[i]) || tok[i] == '.'
        || tok[i] == 'r' || tok[i] == 'k' || tok[i] == 'm' || tok[i] == 'g' by {
        if i < ip.len() {
            assert(tok[i] == ip[i]);
        } else if point && i > ip.len() && i < n.len() {
            assert(tok[i] == fp[i - ip.len() - 1]);
        }
    }
    lemma_plain_token(tok);
    assert(tok.drop_last() =~= n);
    assert(pow10(0) == 1);
    assert(digits_value(ip + fp) * 1 == digits_value(ip + fp));
    if point {
        assert(n =~= ip + (seq!['.'] + fp));
        lemma_digit_run_prefix(ip, seq!['.'] + fp);
        assert(n[ip.len() as int] == '.');
        assert(n.skip(ip.len() as int + 1) =~= fp);
        assert(n.take(ip.len() as int) =~= ip);
    } else {
        assert(ip =~= ip + Seq::<char>::empty());
        lemma_digit_run_prefix(ip, Seq::<char>::empty());
        assert(ip + fp =~= ip);
    }
}

/// Code form: digits `a`, a letter `r`, `k` or `m` in place of the decimal
/// point, digits `b` decode to `a.b` times one, a thousand or a million,
/// rounded to the nearest ohm, or to `OutOfRange` where that does not fit.
pub proof fn law_code_form(a: Seq<char>, letter: char, b: Seq<char>)
    requires
        all_digits(a),
        all_digits(b),
        a.len() >= 1,
        b.len() >= 1,
        is_code_letter(letter),
    ensures
        decoded(a + seq![letter] + b) == within_range(
            round_half_up(digits_value(a + b) * pow10(code_exponent(letter)), pow10(b.len())),
        ),
{
    let tok = a + seq![letter] + b;
    assert forall|i: int| 0 <= i < tok.len() implies is_digit(#[trigger] tok[i]) || tok[i] == '.'
        || tok[i] == 'r' || tok[i] == 'k' || tok[i] == 'm' || tok[i] == 'g' by {
        if i < a.len() {
            assert(tok[i] == a[i]);
        } else if i > a.len() {
            assert(tok[i] == b[i - a.len() - 1]);
        }
    }
    lemma_plain_token(tok);
    assert(tok.last() == b.last());
    assert(is_digit(b[b.len() - 1]));
    assert(tok =~= a + (seq![letter] + b));
    lemma_digit_run_prefix(a, seq![letter] + b);
    assert(tok[a.len() as int] == letter);
    assert(tok.skip(a.len() as int + 1) =~= b);
    assert(tok.take(a.len() as int) =~= a);
}

proof fn lemma_remove_after_absent(a: Seq<char>, b: Seq<char>, pat: Seq<char>)
    requires
        pat.len() > 0,
        forall|i: int| 0 <= i < a.len() ==> a[i] != pat[0],
    ensures
        remove_all(a + b, pat) == a + remove_all(b, pat),
    decreases a.len(),
{
    if a.len() > 0 {
        let ab = a + b;
        if pat.len() <= ab.len() {
            assert(ab.take(pat.len() as int)[0] == a[0]);
        }
        assert(ab.skip(1) =~= a.skip(1) + b);
        lemma_remove_after_absent(a.skip(1), b, pat);
        assert(seq![a[0]] + (a.skip(1) + remove_all(b, pat)) =~= a + remove_all(b, pat));
    } else {
        assert(a + b =~= b);
        assert(a + remove_all(b, pat) =~= remove_all(b, pat));
    }
}

proof fn lemma_word_stops_at_space(a: Seq<char>, b: Seq<char>)
    requires
        forall|i: int| 0 <= i < a.len() ==> !is_ws(a[i]),
        b.len() == 0 || is_ws(b[0]),
    ensures
        leading_word(a + b) == a,
    decreases a.len(),
{
    if a.len() > 0 {
        assert((a + b).drop_first() =~= a.drop_first() + b);
        lemma_word_stops_at_space(a.drop_first(), b);
        assert(seq![a[0]] + a.drop_first() =~= a);
    } else {
        assert(a + b =~= b);
        assert(leading_word(b) =~= Seq::<char>::empty());
    }
}

/// What follows a token does not change what it decodes to, where that rest
/// is only unit words or starts with whitespace once the unit words are gone
/// (`4.7k`, `4.7k ohms`, `4.7kω` and `4.7k 0805 ω` decode alike).
pub proof fn law_rest_ignored(tok: Seq<char>, rest: Seq<char>)
    requires
        tok.len() > 0,
        forall|i: int|
            0 <= i < tok.len() ==> is_digit(#[trigger] tok[i]) || tok[i] == '.' || tok[i] == 'r'
                || tok[i] == 'k' || tok[i] == 'm' || tok[i] == 'g',
        strip_units(rest).len() == 0 || is_ws(strip_units(rest)[0]),
    ensures
        decoded(tok + rest) == decoded(tok),
{
    let o = seq!['o', 'h', 'm', 's'];
    let h = seq!['o', 'h', 'm'];
    let w = seq!['\u{3c9}'];
    lemma_remove_after_absent(tok, rest, o);
    let r1 = remove_all(rest, o);
    lemma_remove_after_absent(tok, r1, h);
    let r2 = remove_all(r1, h);
    lemma_remove_after_absent(tok, r2, w);
    let u = strip_units(rest);
    assert(strip_units(tok + rest) == tok + u);
    assert((tok + u)[0] == tok[0]);
    assert(!is_ws(tok[0]));
    assert(trim_start(tok + u) == tok + u);
    assert forall|i: int| 0 <= i < tok.len() implies !is_ws(tok[i]) by {
        assert(is_digit(tok[i]) || tok[i] == '.' || tok[i] == 'r' || tok[i] == 'k' || tok[i] == 'm'
            || tok[i] == 'g');
    }
    lemma_word_stops_at_space(tok, u);
    lemma_plain_token(tok);
}

/// A token whose notation gives a magnitude beyond `u32::MAX` decodes to
/// `OutOfRange`; any other magnitude comes back whole, never wrapped or cut.
pub proof fn law_range(t: Seq<char>, tok: Seq<char>, v: nat)
    requires
        first_token(strip_units(t)) == Some(tok),
        token_magnitude(tok) == Some(v),
    ensures
        v > u32::MAX ==> decoded(t) == Err::<u32, DecodeError>(DecodeError::OutOfRange),
        v <= u32::MAX ==> decoded(t) == Ok::<u32, DecodeError>(v as u32),
{
}

} // verus!
