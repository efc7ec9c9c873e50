//! Verified base-10 parsing: unsigned integers, and the floating-point
//! numerals the configuration rules need, compared against integer bounds
//! exactly — the decimal point is moved by the exponent and the shifted
//! digits are compared, so no floating-point arithmetic takes part.

use vstd::arithmetic::mul::{lemma_mul_inequality, lemma_mul_unary_negation};
use vstd::arithmetic::power::{
    lemma_pow0, lemma_pow1, lemma_pow_adds, lemma_pow_increases, lemma_pow_positive, pow,
};
use vstd::prelude::*;

verus! {

pub open spec fn is_digit(c: char) -> bool {
    '0' as u32 <= c as u32 && c as u32 <= '9' as u32
}

pub open spec fn digit_val(c: char) -> nat {
    (c as u32 - '0' as u32) as nat
}

/// The value of a digit string, most significant digit first.
pub open spec fn digits_val(s: Seq<char>) -> nat
    decreases s.len(),
{
    if s.len() == 0 {
        0
    } else {
        digits_val(s.drop_last()) * 10 + digit_val(s.last())
    }
}

pub open spec fn all_digits(s: Seq<char>) -> bool {
    forall|i: int| 0 <= i < s.len() ==> is_digit(#[trigger] s[i])
}

/// `s` without an optional leading `+`, as `u32::from_str` accepts it.
pub open spec fn unsigned_body(s: Seq<char>) -> Seq<char> {
    if s.len() > 0 && s[0] == '+' {
        s.drop_first()
    } else {
        s
    }
}

/// `s` is a base-10 numeral whose value fits in a `u32`.
pub open spec fn parses_u32(s: Seq<char>) -> bool {
    let b = unsigned_body(s);
    b.len() > 0 && all_digits(b) && digits_val(b) <= u32::MAX
}

pub open spec fn u32_value(s: Seq<char>) -> nat {
    digits_val(unsigned_body(s))
}

/// Parses the characters of `v` as a base-10 `u32`: an optional leading `+`,
/// then one or more digits, rejecting values above `u32::MAX`.
pub fn parse_u32_chars(v: &Vec<char>) -> (r: Option<u32>)
    ensures
        r is Some <==> parses_u32(v@),
        r matches Some(x) ==> x == u32_value(v@),
{
    let n = v.len();
    let mut start: usize = 0;
    if n > 0 && v[0] == '+' {
        start = 1;
    }
    proof {
        assert(unsigned_body(v@) =~= v@.subrange(start as int, n as int));
    }
    if start == n {
        return None;
    }
    let mut acc: u64 = 0;
    let mut over = false;
    let mut i: usize = start;
    while i < n
        invariant
            start <= i <= n,
            n == v@.len(),
            unsigned_body(v@) =~= v@.subrange(start as int, n as int),
            all_digits(v@.subrange(start as int, i as int)),
            !over ==> acc == digits_val(v@.subrange(start as int, i as int)) && acc <= u32::MAX,
            over ==> digits_val(v@.subrange(start as int, i as int)) > u32::MAX,
        decreases n - i,
    {
        let c = v[i];
        let cu = c as u32;
        if cu < '0' as u32 || cu > '9' as u32 {
            proof {
                let b = unsigned_body(v@);
                assert(b[i - start] == v@[i as int]);
                assert(!all_digits(b));
            }
            return None;
        }
        let d = (cu - '0' as u32) as u64;
        proof {
            let p = v@.subrange(start as int, i as int);
            let q = v@.subrange(start as int, i as int + 1);
            assert(q.drop_last() =~= p);
            assert(q.last() == v@[i as int]);
            assert(digits_val(q) == digits_val(p) * 10 + digit_val(c));
        }
        if !over {
            acc = acc * 10 + d;
            if acc > u32::MAX as u64 {
                over = true;
            }
        }
        i = i + 1;
    }
    proof {
        assert(v@.subrange(start as int, n as int) =~= unsigned_body(v@));
    }
    if over {
        None
    } else {
        Some(acc as u32)
    }
}

/// `s` without an optional leading sign.
pub open spec fn signed_body(s: Seq<char>) -> Seq<char> {
    if s.len() > 0 && (s[0] == '+' || s[0] == '-') {
        s.drop_first()
    } else {
        s
    }
}

pub open spec fn is_negative(s: Seq<char>) -> bool {
    s.len() > 0 && s[0] == '-'
}

/// The position of the first `.` in `s`, or `s.len()` if there is none.
pub open spec fn dot_index(s: Seq<char>) -> int
    decreases s.len(),
{
    if s.len() == 0 {
        0
    } else if s[0] == '.' {
        0
    } else {
        1 + dot_index(s.drop_first())
    }
}

pub open spec fn int_part(b: Seq<char>) -> Seq<char> {
    b.subrange(0, dot_index(b))
}

pub open spec fn frac_part(b: Seq<char>) -> Seq<char> {
    if dot_index(b) < b.len() {
        b.subrange(dot_index(b) + 1, b.len() as int)
    } else {
        Seq::empty()
    }
}

pub open spec fn is_exp_char(c: char) -> bool {
    c == 'e' || c == 'E'
}

/// The position of the first exponent marker in `s`, or `s.len()`.
pub open spec fn exp_index(s: Seq<char>) -> int
    decreases s.len(),
{
    if s.len() == 0 {
        0
    } else if is_exp_char(s[0]) {
        0
    } else {
        1 + exp_index(s.drop_first())
    }
}

/// The digits-and-dot part of a numeral's body, before any exponent marker.
pub open spec fn mantissa_part(b: Seq<char>) -> Seq<char> {
    b.subrange(0, exp_index(b))
}

/// What follows the exponent marker: an optionally signed digit string.
pub open spec fn exp_part(b: Seq<char>) -> Seq<char> {
    if exp_index(b) < b.len() {
        b.subrange(exp_index(b) + 1, b.len() as int)
    } else {
        Seq::empty()
    }
}

/// The mantissa is digits with at most one `.` and at least one digit.
pub open spec fn valid_mantissa(mp: Seq<char>) -> bool {
    &&& all_digits(int_part(mp))
    &&& all_digits(frac_part(mp))
    &&& int_part(mp).len() + frac_part(mp).len() > 0
}

/// If an exponent marker is present, it is followed by an optional sign and
/// at least one digit.
pub open spec fn valid_exp(b: Seq<char>) -> bool {
    exp_index(b) == b.len() || {
        let ed = signed_body(exp_part(b));
        ed.len() > 0 && all_digits(ed)
    }
}

/// The signed value of the exponent, zero when there is none.
pub open spec fn exp_value(b: Seq<char>) -> int {
    if exp_index(b) < b.len() {
        let ep = exp_part(b);
        if is_negative(ep) {
            -(digits_val(signed_body(ep)) as int)
        } else {
            digits_val(signed_body(ep)) as int
        }
    } else {
        0
    }
}

/// `c` is the letter `l` (given in lower case) in either letter case.
pub open spec fn ci_eq(c: char, l: char) -> bool {
    c == l || c as u32 + 32 == l as u32
}

pub open spec fn is_nan_token(b: Seq<char>) -> bool {
    b.len() == 3 && ci_eq(b[0], 'n') && ci_eq(b[1], 'a') && ci_eq(b[2], 'n')
}

pub open spec fn is_inf_token(b: Seq<char>) -> bool {
    b.len() == 3 && ci_eq(b[0], 'i') && ci_eq(b[1], 'n') && ci_eq(b[2], 'f')
}

pub open spec fn is_infinity_token(b: Seq<char>) -> bool {
    &&& b.len() == 8
    &&& ci_eq(b[0], 'i')
    &&& ci_eq(b[1], 'n')
    &&& ci_eq(b[2], 'f')
    &&& ci_eq(b[3], 'i')
    &&& ci_eq(b[4], 'n')
    &&& ci_eq(b[5], 'i')
    &&& ci_eq(b[6], 't')
    &&& ci_eq(b[7], 'y')
}

/// `inf`, `infinity` or `nan`, in any letter case.
pub open spec fn is_float_keyword(b: Seq<char>) -> bool {
    is_nan_token(b) || is_inf_token(b) || is_infinity_token(b)
}

/// `s` is accepted by `f32` parsing: an optional sign, then one of the
/// keywords `inf`, `infinity` or `nan` in any letter case, or a decimal
/// numeral with an optional decimal exponent (`e` or `E`, optional sign,
/// digits).
pub open spec fn parses_float(s: Seq<char>) -> bool {
    let b = signed_body(s);
    is_float_keyword(b) || (valid_mantissa(mantissa_part(b)) && valid_exp(b))
}

pub open spec fn zero_digits(n: nat) -> Seq<char> {
    Seq::new(n, |i: int| '0')
}

/// The digits standing above the decimal point after moving it `e` places to
/// the right: the numeral `±IP.FP × 10^e` equals `±SI.SF` for the shifted
/// digit strings, which is the digit-shift identity of scientific notation.
pub open spec fn shifted_int(ip: Seq<char>, fp: Seq<char>, e: int) -> Seq<char> {
    if e >= 0 {
        if e <= fp.len() {
            ip + fp.subrange(0, e)
        } else {
            ip + fp + zero_digits((e - fp.len()) as nat)
        }
    } else {
        if -e <= ip.len() {
            ip.subrange(0, ip.len() + e)
        } else {
            Seq::empty()
        }
    }
}

/// After the same move, every digit below the decimal point is zero.
pub open spec fn shifted_frac_zero(ip: Seq<char>, fp: Seq<char>, e: int) -> bool {
    if e >= 0 {
        forall|i: int| e <= i < fp.len() ==> #[trigger] fp[i] == '0'
    } else {
        &&& forall|i: int| 0 <= i < fp.len() ==> #[trigger] fp[i] == '0'
        &&& forall|i: int| 0 <= i < ip.len() && ip.len() + e <= i ==> #[trigger] ip[i] == '0'
    }
}

/// A magnitude `i + f` (with `0 <= f < 1`, and `f == 0` exactly when `fz`),
/// negated when `neg`, is at least the integer `m`.
pub open spec fn mag_ge(neg: bool, i: nat, fz: bool, m: int) -> bool {
    if !neg {
        i >= m
    } else if m > 0 {
        false
    } else {
        i < -m || (i == -m && fz)
    }
}

/// The same signed magnitude is at most the integer `m`.
pub open spec fn mag_le(neg: bool, i: nat, fz: bool, m: int) -> bool {
    if !neg {
        i < m || (i == m && fz)
    } else if m >= 0 {
        true
    } else {
        i >= -m
    }
}

/// The numeral's exact rational value lies in `[min, max]`: the decimal
/// point is moved by the exponent, and the shifted digits are compared to
/// the integer bounds. `nan` and the infinities never lie within finite
/// bounds.
pub open spec fn float_in_range(s: Seq<char>, min: int, max: int) -> bool {
    let b = signed_body(s);
    if is_float_keyword(b) {
        false
    } else {
        let mp = mantissa_part(b);
        let si = digits_val(shifted_int(int_part(mp), frac_part(mp), exp_value(b)));
        let fz = shifted_frac_zero(int_part(mp), frac_part(mp), exp_value(b));
        mag_ge(is_negative(s), si, fz, min) && mag_le(is_negative(s), si, fz, max)
    }
}

/// A digit string's value is below ten to its length.
proof fn lemma_digits_val_bound(d: Seq<char>)
    requires
        all_digits(d),
    ensures
        digits_val(d) < pow(10, d.len()),
    decreases d.len(),
{
    if d.len() == 0 {
        lemma_pow0(10);
    } else {
        let head = d.drop_last();
        assert(all_digits(head));
        lemma_digits_val_bound(head);
        lemma_pow_adds(10, head.len(), 1);
        lemma_pow1(10);
        assert(pow(10, d.len()) == 10 * pow(10, head.len()));
        assert(digits_val(head) * 10 <= (pow(10, head.len()) - 1) * 10) by {
            lemma_mul_inequality(digits_val(head) as int, pow(10, head.len()) - 1, 10);
        }
        assert(digit_val(d.last()) <= 9);
    }
}

/// A digit string's value is zero exactly when every digit is `0`.
proof fn lemma_digits_zero(d: Seq<char>)
    requires
        all_digits(d),
    ensures
        (digits_val(d) == 0) <==> (forall|i: int| 0 <= i < d.len() ==> #[trigger] d[i] == '0'),
    decreases d.len(),
{
    if d.len() > 0 {
        let head = d.drop_last();
        assert(all_digits(head));
        lemma_digits_zero(head);
        let c = d.last();
        assert(is_digit(c));
        assert((digit_val(c) == 0) <==> (c as u32 == '0' as u32));
        if c as u32 == '0' as u32 {
            vstd::utf8::char_u32_cast(c, c as u32);
            vstd::utf8::char_u32_cast('0', '0' as u32);
        }
        assert((c as u32 == '0' as u32) <==> (c == '0'));
        assert((digit_val(d.last()) == 0) <==> (d.last() == '0'));
        if digits_val(d) == 0 {
            assert(forall|i: int| 0 <= i < head.len() ==> #[trigger] head[i] == '0');
            assert forall|i: int| 0 <= i < d.len() implies #[trigger] d[i] == '0' by {
                if i < d.len() - 1 {
                    assert(head[i] == d[i]);
                }
            }
        } else {
            if forall|i: int| 0 <= i < d.len() ==> #[trigger] d[i] == '0' {
                assert forall|i: int| 0 <= i < head.len() implies #[trigger] head[i] == '0' by {
                    assert(d[i] == '0');
                }
                assert(digits_val(head) == 0);
                assert(d.last() == d[d.len() - 1]);
                assert(false);
            }
        }
    }
}

/// The case analyses in [`mag_ge`] and [`mag_le`], applied to a digit string
/// `d` above the decimal point and fractional digits `f` below it, decide
/// the exact rational value: with the magnitude written as the integer
/// `digits_val(d) * 10^k + digits_val(f)` over the scale `10^k`, the bound
/// `m` compares to the signed numerator exactly as the scaled integer
/// comparisons state.
pub proof fn lemma_mag_bounds_exact(neg: bool, d: Seq<char>, f: Seq<char>, m: int)
    requires
        all_digits(d),
        all_digits(f),
    ensures
        ({
            let i = digits_val(d) as int;
            let fv = digits_val(f) as int;
            let fz = forall|j: int| 0 <= j < f.len() ==> #[trigger] f[j] == '0';
            let scale = pow(10, f.len());
            let num = if neg {
                -(i * scale + fv)
            } else {
                i * scale + fv
            };
            &&& (mag_ge(neg, digits_val(d), fz, m) <==> m * scale <= num)
            &&& (mag_le(neg, digits_val(d), fz, m) <==> num <= m * scale)
        }),
{
    let i = digits_val(d) as int;
    let fv = digits_val(f) as int;
    let k = f.len();
    let scale = pow(10, k);
    lemma_pow_positive(10, k);
    lemma_digits_val_bound(f);
    lemma_digits_zero(f);
    assert(0 <= i);
    assert(0 <= fv < scale);
    // The magnitude `i + fv / scale` compared to the bound and its negation.
    assert((i >= m) <==> (m * scale <= i * scale + fv)) by (nonlinear_arith)
        requires
            0 <= i,
            0 <= fv < scale,
    {
    }
    assert((i >= -m) <==> ((-m) * scale <= i * scale + fv)) by (nonlinear_arith)
        requires
            0 <= i,
            0 <= fv < scale,
    {
    }
    assert((i < m || (i == m && fv == 0)) <==> (i * scale + fv <= m * scale)) by (nonlinear_arith)
        requires
            0 <= i,
            0 <= fv < scale,
    {
    }
    assert((i < -m || (i == -m && fv == 0)) <==> (i * scale + fv <= (-m) * scale))
        by (nonlinear_arith)
        requires
            0 <= i,
            0 <= fv < scale,
    {
    }
    assert((-m) * scale == -(m * scale)) by {
        lemma_mul_unary_negation(m, scale);
    }
}

/// `dot_index` names the first `.`: anything before `dp` is not a dot, and
/// `dp` itself is one unless it is the end.
proof fn lemma_dot_index(s: Seq<char>, dp: int)
    requires
        0 <= dp <= s.len(),
        forall|j: int| 0 <= j < dp ==> s[j] != '.',
        dp < s.len() ==> s[dp] == '.',
    ensures
        dot_index(s) == dp,
    decreases s.len(),
{
    if s.len() > 0 && s[0] != '.' {
        lemma_dot_index(s.drop_first(), dp - 1);
    }
}

/// `exp_index` names the first exponent marker, in the same way.
proof fn lemma_exp_index(s: Seq<char>, ei: int)
    requires
        0 <= ei <= s.len(),
        forall|j: int| 0 <= j < ei ==> !is_exp_char(#[trigger] s[j]),
        ei < s.len() ==> is_exp_char(s[ei]),
    ensures
        exp_index(s) == ei,
    decreases s.len(),
{
    if s.len() > 0 && !is_exp_char(s[0]) {
        lemma_exp_index(s.drop_first(), ei - 1);
    }
}

/// Appending `t` zero digits multiplies a digit string's value by `10^t`.
proof fn lemma_dv_append_zeros(w: Seq<char>, t: nat)
    ensures
        digits_val(w + zero_digits(t)) == digits_val(w) * pow(10, t),
    decreases t,
{
    if t == 0 {
        lemma_pow0(10);
        assert(w + zero_digits(0) =~= w);
    } else {
        lemma_dv_append_zeros(w, (t - 1) as nat);
        let q = w + zero_digits(t);
        assert(q.drop_last() =~= w + zero_digits((t - 1) as nat));
        assert(q.last() == '0');
        assert(digit_val('0') == 0);
        lemma_pow_adds(10, (t - 1) as nat, 1);
        lemma_pow1(10);
        assert(digits_val(w) * pow(10, (t - 1) as nat) * 10 == digits_val(w) * pow(10, t))
            by (nonlinear_arith)
            requires
                pow(10, t) == pow(10, (t - 1) as nat) * 10,
        {
        }
    }
}

proof fn lemma_pow10_eleven()
    ensures
        pow(10, 11) == 100_000_000_000,
{
    lemma_pow1(10);
    lemma_pow_adds(10, 1, 1);
    assert(pow(10, 2) == 100);
    lemma_pow_adds(10, 2, 2);
    assert(pow(10, 4) == 10_000);
    lemma_pow_adds(10, 4, 4);
    assert(pow(10, 8) == 100_000_000);
    lemma_pow_adds(10, 8, 2);
    assert(pow(10, 10) == 10_000_000_000);
    lemma_pow_adds(10, 10, 1);
}

/// Executable counterpart of [`ci_eq`].
fn ci_eq_exec(c: char, l: char) -> (r: bool)
    ensures
        r == ci_eq(c, l),
{
    c == l || (c as u32) + 32 == (l as u32)
}

/// Scans the digits of `v` in `[lo, hi)`, continuing a value that already
/// covers the ghost prefix `w0`: exact below `u32::MAX`, a lower bound
/// above; fails on any non-digit.
fn scan_digits_value(
    v: &Vec<char>,
    lo: usize,
    hi: usize,
    acc0: u64,
    big0: bool,
    Ghost(w0): Ghost<Seq<char>>,
) -> (r: Option<(u64, bool)>)
    requires
        lo <= hi <= v@.len(),
        !big0 ==> acc0 == digits_val(w0) && acc0 <= u32::MAX,
        big0 ==> digits_val(w0) > u32::MAX,
    ensures
        r is Some <==> all_digits(v@.subrange(lo as int, hi as int)),
        r matches Some(p) ==> ({
            let w = w0 + v@.subrange(lo as int, hi as int);
            &&& !p.1 ==> p.0 == digits_val(w) && p.0 <= u32::MAX
            &&& p.1 ==> digits_val(w) > u32::MAX
        }),
{
    let mut acc = acc0;
    let mut big = big0;
    let mut i: usize = lo;
    proof {
        assert(w0 + v@.subrange(lo as int, lo as int) =~= w0);
    }
    while i < hi
        invariant
            lo <= i <= hi <= v@.len(),
            all_digits(v@.subrange(lo as int, i as int)),
            !big ==> acc == digits_val(w0 + v@.subrange(lo as int, i as int)) && acc <= u32::MAX,
            big ==> digits_val(w0 + v@.subrange(lo as int, i as int)) > u32::MAX,
        decreases hi - i,
    {
        let c = v[i];
        let cu = c as u32;
        if cu < '0' as u32 || cu > '9' as u32 {
            proof {
                let sub = v@.subrange(lo as int, hi as int);
                assert(sub[i - lo] == v@[i as int]);
                assert(!all_digits(sub));
            }
            return None;
        }
        let d = (cu - '0' as u32) as u64;
        proof {
            let p = w0 + v@.subrange(lo as int, i as int);
            let q = w0 + v@.subrange(lo as int, i as int + 1);
            assert(q.drop_last() =~= p);
            assert(q.last() == v@[i as int]);
            assert(digits_val(q) == digits_val(p) * 10 + digit_val(c));
        }
        if !big {
            acc = acc * 10 + d;
            if acc > u32::MAX as u64 {
                big = true;
            }
        }
        i = i + 1;
    }
    Some((acc, big))
}

/// Checks that `[lo, hi)` holds only digits and reports whether every one of
/// them is `0`.
fn scan_zero_digits(v: &Vec<char>, lo: usize, hi: usize) -> (r: Option<bool>)
    requires
        lo <= hi <= v@.len(),
    ensures
        r is Some <==> all_digits(v@.subrange(lo as int, hi as int)),
        r matches Some(z) ==> (z <==> (forall|i: int| lo <= i < hi ==> v@[i] == '0')),
{
    let mut zero = true;
    let mut i: usize = lo;
    while i < hi
        invariant
            lo <= i <= hi <= v@.len(),
            all_digits(v@.subrange(lo as int, i as int)),
            zero == (forall|k: int| lo <= k < i ==> v@[k] == '0'),
        decreases hi - i,
    {
        let c = v[i];
        let cu = c as u32;
        if cu < '0' as u32 || cu > '9' as u32 {
            proof {
                let sub = v@.subrange(lo as int, hi as int);
                assert(sub[i - lo] == v@[i as int]);
                assert(!all_digits(sub));
            }
            return None;
        }
        proof {
            let p = v@.subrange(lo as int, i as int);
            let q = v@.subrange(lo as int, i as int + 1);
            assert(q.drop_last() =~= p);
            assert(q.last() == v@[i as int]);
        }
        if c != '0' {
            zero = false;
        }
        i = i + 1;
    }
    Some(zero)
}

/// Extends a scanned value by `z` zero digits, `zsmall` being `z` capped at
/// eleven: eleven zeros already push any nonzero value past `u32::MAX`, and
/// further zeros only grow it.
fn pad_zeros(
    acc0: u64,
    big0: bool,
    zsmall: usize,
    Ghost(w0): Ghost<Seq<char>>,
    Ghost(z): Ghost<int>,
) -> (r: (u64, bool))
    requires
        0 <= z,
        zsmall as int == (if z <= 11 { z } else { 11 }),
        !big0 ==> acc0 == digits_val(w0) && acc0 <= u32::MAX,
        big0 ==> digits_val(w0) > u32::MAX,
    ensures
        ({
            let w = w0 + zero_digits(z as nat);
            &&& !r.1 ==> r.0 == digits_val(w) && r.0 <= u32::MAX
            &&& r.1 ==> digits_val(w) > u32::MAX
        }),
{
    proof {
        lemma_dv_append_zeros(w0, z as nat);
        lemma_pow_positive(10, z as nat);
    }
    if big0 {
        proof {
            assert(digits_val(w0 + zero_digits(z as nat)) >= digits_val(w0)) by (nonlinear_arith)
                requires
                    digits_val(w0 + zero_digits(z as nat)) == digits_val(w0) * pow(10, z as nat),
                    pow(10, z as nat) >= 1,
            {
            }
        }
        return (acc0, true);
    }
    if acc0 == 0 {
        proof {
            assert(digits_val(w0 + zero_digits(z as nat)) == 0) by (nonlinear_arith)
                requires
                    digits_val(w0 + zero_digits(z as nat)) == digits_val(w0) * pow(10, z as nat),
                    digits_val(w0) == 0,
            {
            }
        }
        return (0, false);
    }
    let mut acc = acc0;
    let mut big = false;
    let mut j: usize = 0;
    proof {
        assert(w0 + zero_digits(0) =~= w0);
    }
    while j < zsmall
        invariant
            j <= zsmall,
            zsmall <= 11,
            !big ==> acc == digits_val(w0 + zero_digits(j as nat)) && acc <= u32::MAX,
            big ==> digits_val(w0 + zero_digits(j as nat)) > u32::MAX,
        decreases zsmall - j,
    {
        proof {
            let p = w0 + zero_digits(j as nat);
            let q = w0 + zero_digits((j + 1) as nat);
            assert(q.drop_last() =~= p);
            assert(q.last() == '0');
            assert(digit_val('0') == 0);
            assert(digits_val(q) == digits_val(p) * 10);
        }
        if !big {
            acc = acc * 10;
            if acc > u32::MAX as u64 {
                big = true;
            }
        }
        j = j + 1;
    }
    proof {
        if z > 11 {
            lemma_dv_append_zeros(w0, 11);
            lemma_pow10_eleven();
            assert(digits_val(w0) * pow(10, 11) >= 1 * pow(10, 11)) by {
                lemma_mul_inequality(1, digits_val(w0) as int, pow(10, 11));
            }
            assert(digits_val(w0 + zero_digits(11)) > u32::MAX);
            assert(big);
            lemma_pow_increases(10, 11, z as nat);
            assert(digits_val(w0) * pow(10, z as nat) >= digits_val(w0) * pow(10, 11))
                by (nonlinear_arith)
                requires
                    pow(10, z as nat) >= pow(10, 11),
                    digits_val(w0) >= 0,
            {
            }
        } else {
            assert(zero_digits(j as nat) =~= zero_digits(z as nat));
        }
    }
    (acc, big)
}

/// Reads an exponent's digits in `[lo, hi)`: the value exactly up to `10^21`
/// and a lower bound beyond — a capped exponent moves the decimal point past
/// every digit any string could hold.
fn parse_exp_magnitude(v: &Vec<char>, lo: usize, hi: usize) -> (r: Option<(u128, bool)>)
    requires
        lo <= hi <= v@.len(),
    ensures
        r is Some <==> (lo < hi && all_digits(v@.subrange(lo as int, hi as int))),
        r matches Some(p) ==> ({
            let dv = digits_val(v@.subrange(lo as int, hi as int));
            &&& !p.1 ==> p.0 as nat == dv && dv <= 1_000_000_000_000_000_000_000
            &&& p.1 ==> dv > 1_000_000_000_000_000_000_000
        }),
{
    if lo == hi {
        return None;
    }
    let mut acc: u128 = 0;
    let mut huge = false;
    let mut i: usize = lo;
    while i < hi
        invariant
            lo <= i <= hi <= v@.len(),
            all_digits(v@.subrange(lo as int, i as int)),
            !huge ==> acc as nat == digits_val(v@.subrange(lo as int, i as int)) && acc
                <= 1_000_000_000_000_000_000_000u128,
            huge ==> digits_val(v@.subrange(lo as int, i as int))
                > 1_000_000_000_000_000_000_000,
        decreases hi - i,
    {
        let c = v[i];
        let cu = c as u32;
        if cu < '0' as u32 || cu > '9' as u32 {
            proof {
                let sub = v@.subrange(lo as int, hi as int);
                assert(sub[i - lo] == v@[i as int]);
                assert(!all_digits(sub));
            }
            return None;
        }
        let d = (cu - '0' as u32) as u128;
        proof {
            let p = v@.subrange(lo as int, i as int);
            let q = v@.subrange(lo as int, i as int + 1);
            assert(q.drop_last() =~= p);
            assert(q.last() == v@[i as int]);
            assert(digits_val(q) == digits_val(p) * 10 + digit_val(c));
        }
        if !huge {
            acc = acc * 10 + d;
            if acc > 1_000_000_000_000_000_000_000u128 {
                huge = true;
            }
        }
        i = i + 1;
    }
    Some((acc, huge))
}

/// Computes the shifted digits for a nonnegative exponent: the integer
/// digits `[bstart, dp)`, then the first `e` fractional digits
/// `[f_lo, ei)`, padded with zeros where the exponent passes the last
/// digit. Fails exactly when a non-digit stands in either part.
fn shift_right_digits(
    v: &Vec<char>,
    bstart: usize,
    dp: usize,
    f_lo: usize,
    ei: usize,
    emag: u128,
    ehuge: bool,
    Ghost(ip): Ghost<Seq<char>>,
    Ghost(fp): Ghost<Seq<char>>,
    Ghost(e): Ghost<int>,
) -> (r: Option<(u64, bool, bool)>)
    requires
        bstart <= dp <= v@.len(),
        f_lo <= ei <= v@.len(),
        ip =~= v@.subrange(bstart as int, dp as int),
        fp =~= v@.subrange(f_lo as int, ei as int),
        e >= 0,
        !ehuge ==> e == emag as int,
        ehuge ==> e > 1_000_000_000_000_000_000_000,
    ensures
        r is Some <==> (all_digits(ip) && all_digits(fp)),
        r matches Some(t) ==> ({
            let si = digits_val(shifted_int(ip, fp, e));
            &&& !t.1 ==> t.0 == si && t.0 <= u32::MAX
            &&& t.1 ==> si > u32::MAX
            &&& t.2 == shifted_frac_zero(ip, fp, e)
        }),
{
    let n_f = ei - f_lo;
    let exp_le_nf = !ehuge && emag <= n_f as u128;
    let take: usize = if exp_le_nf {
        proof {
            assert(emag <= usize::MAX as u128);
        }
        emag as usize
    } else {
        n_f
    };
    proof {
        assert(n_f as int <= u64::MAX as int);
        assert(take as int == (if e <= n_f as int {
            e
        } else {
            n_f as int
        }));
    }
    let r1 = match scan_digits_value(v, bstart, dp, 0, false, Ghost(Seq::<char>::empty())) {
        None => {
            return None;
        },
        Some(p) => p,
    };
    proof {
        assert(Seq::<char>::empty() + v@.subrange(bstart as int, dp as int) =~= ip);
    }
    let r2 = match scan_digits_value(v, f_lo, f_lo + take, r1.0, r1.1, Ghost(ip)) {
        None => {
            proof {
                let pre = v@.subrange(f_lo as int, f_lo as int + take as int);
                assert(forall|j: int| 0 <= j < take ==> #[trigger] pre[j] == fp[j]);
                assert(!all_digits(fp)) by {
                    let j = choose|j: int| 0 <= j < pre.len() && !is_digit(#[trigger] pre[j]);
                    assert(!is_digit(fp[j]));
                }
            }
            return None;
        },
        Some(p) => p,
    };
    proof {
        assert(v@.subrange(f_lo as int, f_lo as int + take as int) =~= fp.subrange(
            0,
            take as int,
        ));
        assert(ip + v@.subrange(f_lo as int, f_lo as int + take as int) =~= ip + fp.subrange(
            0,
            take as int,
        ));
    }
    let fz = match scan_zero_digits(v, f_lo + take, ei) {
        None => {
            proof {
                let tail = v@.subrange(f_lo as int + take as int, ei as int);
                assert(forall|j: int| 0 <= j < tail.len() ==> #[trigger] tail[j] == fp[take + j]);
                assert(!all_digits(fp)) by {
                    let j = choose|j: int| 0 <= j < tail.len() && !is_digit(#[trigger] tail[j]);
                    assert(!is_digit(fp[take + j]));
                }
            }
            return None;
        },
        Some(z) => z,
    };
    proof {
        assert(all_digits(fp)) by {
            let pre = fp.subrange(0, take as int);
            assert(forall|j: int| 0 <= j < take ==> is_digit(#[trigger] pre[j]));
            assert forall|j: int| 0 <= j < fp.len() implies is_digit(#[trigger] fp[j]) by {
                if j < take {
                    assert(pre[j] == fp[j]);
                } else {
                    let tail = v@.subrange(f_lo as int + take as int, ei as int);
                    assert(tail[j - take] == fp[j]);
                }
            }
        }
        assert(fz == shifted_frac_zero(ip, fp, e)) by {
            if fz {
                assert forall|j: int| e <= j < fp.len() implies #[trigger] fp[j] == '0' by {
                    assert(fp[j] == v@[f_lo + j]);
                    assert(f_lo + take <= f_lo + j < ei);
                }
            } else {
                let k = choose|k: int| f_lo + take <= k < ei && !(#[trigger] v@[k] == '0');
                assert(fp[k - f_lo] == v@[k]);
                assert(e <= k - f_lo < fp.len());
                assert(!shifted_frac_zero(ip, fp, e));
            }
        }
    }
    if exp_le_nf {
        proof {
            assert(shifted_int(ip, fp, e) =~= ip + fp.subrange(0, take as int));
        }
        Some((r2.0, r2.1, fz))
    } else {
        let zdiff: u128 = if ehuge {
            12
        } else {
            emag - n_f as u128
        };
        let zsmall: usize = if zdiff > 11 {
            11
        } else {
            zdiff as usize
        };
        proof {
            assert(take == n_f);
            assert(fp.subrange(0, n_f as int) =~= fp);
            assert(ip + v@.subrange(f_lo as int, f_lo as int + n_f as int) =~= ip + fp);
            assert(zsmall as int == (if e - n_f as int <= 11 {
                e - n_f as int
            } else {
                11
            }));
        }
        let padded = pad_zeros(r2.0, r2.1, zsmall, Ghost(ip + fp), Ghost(e - n_f as int));
        proof {
            assert(shifted_int(ip, fp, e) =~= (ip + fp) + zero_digits((e - n_f as int) as nat));
        }
        Some((padded.0, padded.1, fz))
    }
}

/// Computes the shifted digits for a negative exponent `e = -c`: the last
/// `c` integer digits fall below the decimal point, or all of them when `c`
/// passes the front. Fails exactly when a non-digit stands in either part.
fn shift_left_digits(
    v: &Vec<char>,
    bstart: usize,
    dp: usize,
    f_lo: usize,
    ei: usize,
    emag: u128,
    ehuge: bool,
    Ghost(ip): Ghost<Seq<char>>,
    Ghost(fp): Ghost<Seq<char>>,
    Ghost(e): Ghost<int>,
) -> (r: Option<(u64, bool, bool)>)
    requires
        bstart <= dp <= v@.len(),
        f_lo <= ei <= v@.len(),
        ip =~= v@.subrange(bstart as int, dp as int),
        fp =~= v@.subrange(f_lo as int, ei as int),
        e < 0,
        !ehuge ==> e == -(emag as int),
        ehuge ==> e < -1_000_000_000_000_000_000_000,
    ensures
        r is Some <==> (all_digits(ip) && all_digits(fp)),
        r matches Some(t) ==> ({
            let si = digits_val(shifted_int(ip, fp, e));
            &&& !t.1 ==> t.0 == si && t.0 <= u32::MAX
            &&& t.1 ==> si > u32::MAX
            &&& t.2 == shifted_frac_zero(ip, fp, e)
        }),
{
    let n_i = dp - bstart;
    proof {
        assert(n_i as int <= u64::MAX as int);
        assert(ip.len() == n_i);
    }
    let cut_all = ehuge || emag >= n_i as u128;
    if cut_all {
        let z1 = match scan_zero_digits(v, bstart, dp) {
            None => {
                return None;
            },
            Some(z) => z,
        };
        let z2 = match scan_zero_digits(v, f_lo, ei) {
            None => {
                return None;
            },
            Some(z) => z,
        };
        proof {
            assert(-e >= n_i as int);
            assert(shifted_int(ip, fp, e) =~= Seq::<char>::empty());
            assert(digits_val(shifted_int(ip, fp, e)) == 0);
            if z1 && z2 {
                assert forall|j: int| 0 <= j < fp.len() implies #[trigger] fp[j] == '0' by {
                    assert(fp[j] == v@[f_lo + j]);
                }
                assert forall|j: int|
                    0 <= j < ip.len() && ip.len() + e <= j implies #[trigger] ip[j] == '0' by {
                    assert(ip[j] == v@[bstart + j]);
                }
                assert(shifted_frac_zero(ip, fp, e));
            } else if !z1 {
                let k = choose|k: int| bstart <= k < dp && !(#[trigger] v@[k] == '0');
                assert(ip[k - bstart] == v@[k]);
                assert(0 <= k - bstart < ip.len() && ip.len() + e <= k - bstart);
                assert(!shifted_frac_zero(ip, fp, e));
            } else {
                let k = choose|k: int| f_lo <= k < ei && !(#[trigger] v@[k] == '0');
                assert(fp[k - f_lo] == v@[k]);
                assert(!shifted_frac_zero(ip, fp, e));
            }
        }
        Some((0u64, false, z1 && z2))
    } else {
        let cut = n_i - (emag as usize);
        let r1 = match scan_digits_value(
            v,
            bstart,
            bstart + cut,
            0,
            false,
            Ghost(Seq::<char>::empty()),
        ) {
            None => {
                proof {
                    let pre = v@.subrange(bstart as int, bstart as int + cut as int);
                    assert(forall|j: int| 0 <= j < cut ==> #[trigger] pre[j] == ip[j]);
                    assert(!all_digits(ip)) by {
                        let j = choose|j: int| 0 <= j < pre.len() && !is_digit(#[trigger] pre[j]);
                        assert(!is_digit(ip[j]));
                    }
                }
                return None;
            },
            Some(p) => p,
        };
        let z1 = match scan_zero_digits(v, bstart + cut, dp) {
            None => {
                proof {
                    let tail = v@.subrange(bstart as int + cut as int, dp as int);
                    assert(forall|j: int|
                        0 <= j < tail.len() ==> #[trigger] tail[j] == ip[cut + j]);
                    assert(!all_digits(ip)) by {
                        let j = choose|j: int| 0 <= j < tail.len() && !is_digit(#[trigger] tail[j]);
                        assert(!is_digit(ip[cut + j]));
                    }
                }
                return None;
            },
            Some(z) => z,
        };
        let z2 = match scan_zero_digits(v, f_lo, ei) {
            None => {
                return None;
            },
            Some(z) => z,
        };
        proof {
            assert(all_digits(ip)) by {
                let pre = v@.subrange(bstart as int, bstart as int + cut as int);
                assert(forall|j: int| 0 <= j < cut ==> is_digit(#[trigger] pre[j]));
                assert forall|j: int| 0 <= j < ip.len() implies is_digit(#[trigger] ip[j]) by {
                    if j < cut {
                        assert(pre[j] == ip[j]);
                    } else {
                        let tail = v@.subrange(bstart as int + cut as int, dp as int);
                        assert(tail[j - cut] == ip[j]);
                    }
                }
            }
            assert(Seq::<char>::empty() + v@.subrange(bstart as int, bstart as int + cut as int)
                =~= ip.subrange(0, cut as int));
            assert(shifted_int(ip, fp, e) =~= ip.subrange(0, cut as int));
            if z1 && z2 {
                assert forall|j: int| 0 <= j < fp.len() implies #[trigger] fp[j] == '0' by {
                    assert(fp[j] == v@[f_lo + j]);
                }
                assert forall|j: int|
                    0 <= j < ip.len() && ip.len() + e <= j implies #[trigger] ip[j] == '0' by {
                    assert(ip[j] == v@[bstart + j]);
                    assert(bstart + cut <= bstart + j < dp);
                }
                assert(shifted_frac_zero(ip, fp, e));
            } else if !z1 {
                let k = choose|k: int| bstart + cut <= k < dp && !(#[trigger] v@[k] == '0');
                assert(ip[k - bstart] == v@[k]);
                assert(0 <= k - bstart < ip.len() && ip.len() + e <= k - bstart);
                assert(!shifted_frac_zero(ip, fp, e));
            } else {
                let k = choose|k: int| f_lo <= k < ei && !(#[trigger] v@[k] == '0');
                assert(fp[k - f_lo] == v@[k]);
                assert(!shifted_frac_zero(ip, fp, e));
            }
        }
        Some((r1.0, r1.1, z1 && z2))
    }
}

/// Whether the characters from `bstart` on spell `nan`, `inf` or
/// `infinity`, in any letter case.
fn is_keyword_chars(v: &Vec<char>, bstart: usize) -> (r: bool)
    requires
        bstart <= v@.len(),
    ensures
        r == is_float_keyword(v@.subrange(bstart as int, v@.len() as int)),
{
    let ghost b = v@.subrange(bstart as int, v@.len() as int);
    proof {
        assert forall|i: int| 0 <= i < b.len() implies #[trigger] b[i] == v@[bstart + i] by {}
    }
    let n = v.len();
    let blen = n - bstart;
    if blen == 3 {
        let nan = ci_eq_exec(v[bstart], 'n') && ci_eq_exec(v[bstart + 1], 'a') && ci_eq_exec(
            v[bstart + 2],
            'n',
        );
        let inf = ci_eq_exec(v[bstart], 'i') && ci_eq_exec(v[bstart + 1], 'n') && ci_eq_exec(
            v[bstart + 2],
            'f',
        );
        nan || inf
    } else if blen == 8 {
        ci_eq_exec(v[bstart], 'i') && ci_eq_exec(v[bstart + 1], 'n') && ci_eq_exec(
            v[bstart + 2],
            'f',
        ) && ci_eq_exec(v[bstart + 3], 'i') && ci_eq_exec(v[bstart + 4], 'n') && ci_eq_exec(
            v[bstart + 5],
            'i',
        ) && ci_eq_exec(v[bstart + 6], 't') && ci_eq_exec(v[bstart + 7], 'y')
    } else {
        false
    }
}

/// Decides whether the characters of `v` form a numeral that `f32` parsing
/// accepts and, if so, whether its exact value lies in `[min, max]`: `None`
/// when it does not parse, otherwise `Some` of the range check.
#[verifier::rlimit(100)]
#[verifier::spinoff_prover]
pub fn float_in_range_check(v: &Vec<char>, min: i64, max: i64) -> (r: Option<bool>)
    requires
        -(u32::MAX as int) <= min,
        min <= max,
        max <= u32::MAX as int,
    ensures
        r is Some <==> parses_float(v@),
        r matches Some(ok) ==> ok == float_in_range(v@, min as int, max as int),
{
    let n = v.len();
    let mut bstart: usize = 0;
    let mut neg = false;
    if n > 0 && (v[0] == '+' || v[0] == '-') {
        neg = v[0] == '-';
        bstart = 1;
    }
    let ghost b = signed_body(v@);
    proof {
        assert(b =~= v@.subrange(bstart as int, n as int));
        assert(neg == is_negative(v@));
        assert forall|i: int| 0 <= i < b.len() implies #[trigger] b[i] == v@[bstart + i] by {}
    }
    // Keywords: `nan`, `inf` and `infinity`, in any letter case.
    if is_keyword_chars(v, bstart) {
        return Some(false);
    }
    proof {
        assert(!is_float_keyword(b));
    }
    // The exponent marker splits the body into mantissa and exponent.
    let mut ei: usize = bstart;
    while ei < n && !(v[ei] == 'e' || v[ei] == 'E')
        invariant
            bstart <= ei <= n,
            n == v@.len(),
            forall|j: int| bstart <= j < ei ==> !is_exp_char(#[trigger] v@[j]),
        decreases n - ei,
    {
        ei = ei + 1;
    }
    proof {
        assert forall|j: int| 0 <= j < ei - bstart implies !is_exp_char(#[trigger] b[j]) by {
            assert(b[j] == v@[bstart + j]);
        }
        if (ei as int) < n as int {
            assert(b[ei - bstart] == v@[ei as int]);
        }
        lemma_exp_index(b, ei as int - bstart as int);
        assert(mantissa_part(b) =~= v@.subrange(bstart as int, ei as int));
    }
    let ghost mp = mantissa_part(b);
    // The first dot splits the mantissa into integer and fractional digits.
    let mut dp: usize = bstart;
    while dp < ei && v[dp] != '.'
        invariant
            bstart <= dp <= ei,
            ei <= n == v@.len(),
            forall|j: int| bstart <= j < dp ==> v@[j] != '.',
        decreases ei - dp,
    {
        dp = dp + 1;
    }
    proof {
        assert forall|j: int| 0 <= j < dp - bstart implies mp[j] != '.' by {
            assert(mp[j] == v@[bstart + j]);
        }
        if (dp as int) < ei as int {
            assert(mp[dp - bstart] == v@[dp as int]);
        }
        lemma_dot_index(mp, dp as int - bstart as int);
        assert(int_part(mp) =~= v@.subrange(bstart as int, dp as int));
        if (dp as int) < ei as int {
            assert(frac_part(mp) =~= v@.subrange(dp as int + 1, ei as int));
        } else {
            assert(frac_part(mp) =~= Seq::<char>::empty());
        }
    }
    let ghost ip = int_part(mp);
    let ghost fp = frac_part(mp);
    let n_i = dp - bstart;
    let f_lo = if dp < ei {
        dp + 1
    } else {
        ei
    };
    let n_f = ei - f_lo;
    proof {
        assert(ip.len() == n_i);
        assert(fp =~= v@.subrange(f_lo as int, ei as int));
        assert(fp.len() == n_f);
    }
    if n_i + n_f == 0 {
        proof {
            assert(!valid_mantissa(mp));
            assert(!parses_float(v@));
        }
        return None;
    }
    // The exponent's sign and digit value.
    let mut eneg = false;
    let mut ehuge = false;
    let mut emag: u128 = 0;
    if ei < n {
        let mut estart: usize = ei + 1;
        if estart < n && (v[estart] == '+' || v[estart] == '-') {
            eneg = v[estart] == '-';
            estart = estart + 1;
        }
        proof {
            assert(exp_part(b) =~= v@.subrange(ei as int + 1, n as int));
            assert(signed_body(exp_part(b)) =~= v@.subrange(estart as int, n as int));
            assert(is_negative(exp_part(b)) == eneg);
        }
        match parse_exp_magnitude(v, estart, n) {
            None => {
                proof {
                    assert(!valid_exp(b));
                    assert(!parses_float(v@));
                }
                return None;
            },
            Some(p) => {
                emag = p.0;
                ehuge = p.1;
            },
        }
    }
    let ghost e = exp_value(b);
    proof {
        if (ei as int) == n as int {
            assert(e == 0);
        }
        assert(!ehuge ==> (if eneg {
            e == -(emag as int)
        } else {
            e == emag as int
        }));
        assert(ehuge ==> (if eneg {
            e < -1_000_000_000_000_000_000_000
        } else {
            e > 1_000_000_000_000_000_000_000
        }));
        assert(n_f as int <= u64::MAX as int);
        assert(n_i as int <= u64::MAX as int);
    }
    // Move the decimal point by `e` and compare the shifted digits.
    let positive_shift = ei == n || !eneg || (emag == 0 && !ehuge);
    let shifted = if positive_shift {
        proof {
            assert(e >= 0);
        }
        shift_right_digits(v, bstart, dp, f_lo, ei, emag, ehuge, Ghost(ip), Ghost(fp), Ghost(e))
    } else {
        proof {
            assert(e < 0);
        }
        shift_left_digits(v, bstart, dp, f_lo, ei, emag, ehuge, Ghost(ip), Ghost(fp), Ghost(e))
    };
    let (ival, ibig, fz): (u64, bool, bool) = match shifted {
        None => {
            proof {
                assert(!valid_mantissa(mp));
                assert(!parses_float(v@));
            }
            return None;
        },
        Some(t) => t,
    };
    proof {
        assert(valid_mantissa(mp));
        assert(valid_exp(b));
        assert(parses_float(v@));
    }
    let ge: bool = if !neg {
        if ibig {
            true
        } else {
            (ival as i64) >= min
        }
    } else if min > 0 {
        false
    } else {
        if ibig {
            false
        } else {
            (ival as i64) < -min || ((ival as i64) == -min && fz)
        }
    };
    let le: bool = if !neg {
        if ibig {
            false
        } else {
            (ival as i64) < max || ((ival as i64) == max && fz)
        }
    } else if max >= 0 {
        true
    } else {
        if ibig {
            true
        } else {
            (ival as i64) >= -max
        }
    };
    proof {
        let si = digits_val(shifted_int(ip, fp, e));
        assert(ge == mag_ge(neg, si, fz, min as int));
        assert(le == mag_le(neg, si, fz, max as int));
    }
    Some(ge && le)
}

} // verus!
