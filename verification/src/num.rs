//! Fixed-point parsing of the decimal strings the OCR engine stores:
//! an optional sign, digits with at most one point, and an optional
//! exponent, read into millionths. The value is the mantissa's digits
//! shifted by `6 + exponent - fraction length` decimal places, truncated
//! toward zero and clamped to the fixed-point range; non-finite forms
//! (`inf`, `nan`) and anything else malformed parse to nothing, and
//! callers fall back to zero as the engine's consumers do.

use vstd::prelude::*;

use crate::text::chars_of;

verus! {

pub open spec fn is_digit(c: char) -> bool {
    '0' <= c && c <= '9'
}

pub open spec fn digit_val(c: char) -> int {
    c as u32 - 48
}

pub open spec fn all_digits(s: Seq<char>) -> bool {
    forall|i: int| 0 <= i < s.len() ==> is_digit(#[trigger] s[i])
}

/// The number a digit string denotes.
pub open spec fn digits_val(s: Seq<char>) -> int
    decreases s.len(),
{
    if s.len() == 0 {
        0
    } else {
        digits_val(s.drop_last()) * 10 + digit_val(s.last())
    }
}

pub open spec fn pow10(n: nat) -> int
    decreases n,
{
    if n == 0 {
        1
    } else {
        10 * pow10((n - 1) as nat)
    }
}

pub proof fn lemma_pow10_pos(n: nat)
    ensures
        pow10(n) >= 1,
    decreases n,
{
    if n > 0 {
        lemma_pow10_pos((n - 1) as nat);
    }
}

pub proof fn lemma_pow10_mono(a: nat, b: nat)
    requires
        a <= b,
    ensures
        pow10(a) <= pow10(b),
    decreases b,
{
    if a < b {
        lemma_pow10_mono(a, (b - 1) as nat);
        lemma_pow10_pos((b - 1) as nat);
    }
}

pub proof fn lemma_pow10_vals()
    ensures
        pow10(0) == 1,
        pow10(6) == 1_000_000,
        pow10(12) == 1_000_000_000_000,
        pow10(18) == 1_000_000_000_000_000_000,
        pow10(19) == 10_000_000_000_000_000_000,
        pow10(20) == 100_000_000_000_000_000_000,
        pow10(21) == 1_000_000_000_000_000_000_000,
{
    reveal_with_fuel(pow10, 22);
}

pub proof fn lemma_digits_val_bound(s: Seq<char>)
    requires
        all_digits(s),
    ensures
        0 <= digits_val(s) < pow10(s.len()),
    decreases s.len(),
{
    if s.len() > 0 {
        assert(all_digits(s.drop_last())) by {
            assert(forall|i: int| 0 <= i < s.len() - 1 ==> #[trigger] s.drop_last()[i] == s[i]);
        }
        lemma_digits_val_bound(s.drop_last());
    }
}

/// A digit string denotes zero exactly when it is all zeros.
pub proof fn lemma_digits_val_zero(s: Seq<char>)
    requires
        all_digits(s),
    ensures
        digits_val(s) == 0 <==> (forall|i: int| 0 <= i < s.len() ==> (#[trigger] s[i]) == '0'),
    decreases s.len(),
{
    if s.len() > 0 {
        assert(all_digits(s.drop_last())) by {
            assert(forall|i: int| 0 <= i < s.len() - 1 ==> #[trigger] s.drop_last()[i] == s[i]);
        }
        lemma_digits_val_zero(s.drop_last());
        lemma_digits_val_bound(s.drop_last());
        if digits_val(s) == 0 {
            assert(digits_val(s.drop_last()) == 0 && digit_val(s.last()) == 0);
            assert forall|i: int| 0 <= i < s.len() implies (#[trigger] s[i]) == '0' by {
                if i < s.len() - 1 {
                    assert(s.drop_last()[i] == '0');
                }
            }
        } else {
            if forall|i: int| 0 <= i < s.len() ==> (#[trigger] s[i]) == '0' {
                assert(forall|i: int|
                    0 <= i < s.len() - 1 ==> (#[trigger] s.drop_last()[i]) == s[i]);
                assert(digits_val(s.drop_last()) == 0);
                assert(s.last() == '0');
            }
        }
    }
}

/// Place-value decomposition of a digit string at a cut.
pub proof fn lemma_digits_val_split(s: Seq<char>, k: int)
    requires
        0 <= k <= s.len(),
    ensures
        digits_val(s) == digits_val(s.subrange(0, k)) * pow10((s.len() - k) as nat) + digits_val(
            s.subrange(k, s.len() as int),
        ),
    decreases s.len() - k,
{
    if k == s.len() {
        assert(s.subrange(0, k) =~= s);
        assert(s.subrange(k, s.len() as int) =~= Seq::<char>::empty());
    } else {
        let dl = s.drop_last();
        lemma_digits_val_split(dl, k);
        assert(dl.subrange(0, k) =~= s.subrange(0, k));
        assert(s.subrange(k, s.len() as int).drop_last() =~= dl.subrange(k, dl.len() as int));
        assert(s.subrange(k, s.len() as int).last() == s.last());
        let p = digits_val(s.subrange(0, k));
        let m = (dl.len() - k) as nat;
        assert(p * pow10(m) * 10 == p * pow10((m + 1) as nat)) by (nonlinear_arith)
            requires
                pow10((m + 1) as nat) == 10 * pow10(m),
        {}
    }
}

/// A digit string is at least any of its prefixes.
pub proof fn lemma_digits_val_prefix(s: Seq<char>, k: int)
    requires
        0 <= k <= s.len(),
        all_digits(s),
    ensures
        digits_val(s) >= digits_val(s.subrange(0, k)),
{
    lemma_digits_val_split(s, k);
    assert(all_digits(s.subrange(0, k)) && all_digits(s.subrange(k, s.len() as int))) by {
        assert(forall|i: int|
            0 <= i < k ==> (#[trigger] s.subrange(0, k)[i]) == s[i]);
        assert(forall|i: int|
            0 <= i < s.len() - k ==> (#[trigger] s.subrange(k, s.len() as int)[i]) == s[i + k]);
    }
    lemma_digits_val_bound(s.subrange(0, k));
    lemma_digits_val_bound(s.subrange(k, s.len() as int));
    lemma_pow10_pos((s.len() - k) as nat);
    let a = digits_val(s.subrange(0, k));
    let p = pow10((s.len() - k) as nat);
    assert(a * p >= a) by (nonlinear_arith)
        requires
            a >= 0,
            p >= 1,
    {}
}

/// The index of the first `.` in `s`, or `s.len()` when there is none.
pub open spec fn first_dot(s: Seq<char>) -> int
    decreases s.len(),
{
    if s.len() == 0 {
        0
    } else if s[0] == '.' {
        0
    } else {
        1 + first_dot(s.drop_first())
    }
}

pub proof fn lemma_first_dot_at(s: Seq<char>, k: int)
    requires
        0 <= k <= s.len(),
        forall|m: int| 0 <= m < k ==> (#[trigger] s[m]) != '.',
        k < s.len() ==> s[k] == '.',
    ensures
        first_dot(s) == k,
    decreases s.len(),
{
    if s.len() > 0 && k > 0 {
        lemma_first_dot_at(s.drop_first(), k - 1);
    }
}

pub proof fn lemma_first_dot_props(s: Seq<char>)
    ensures
        0 <= first_dot(s) <= s.len(),
        first_dot(s) < s.len() ==> s[first_dot(s)] == '.',
        forall|m: int| 0 <= m < first_dot(s) ==> (#[trigger] s[m]) != '.',
    decreases s.len(),
{
    if s.len() > 0 && s[0] != '.' {
        lemma_first_dot_props(s.drop_first());
        assert forall|m: int| 0 <= m < first_dot(s) implies (#[trigger] s[m]) != '.' by {
            if m > 0 {
                assert(s.drop_first()[m - 1] == s[m]);
                assert(s.drop_first()[m - 1] != '.');
            }
        }
    }
}

pub open spec fn is_exp_char(c: char) -> bool {
    c == 'e' || c == 'E'
}

/// The index of the first exponent marker in `s`, or `s.len()`.
pub open spec fn first_exp(s: Seq<char>) -> int
    decreases s.len(),
{
    if s.len() == 0 {
        0
    } else if is_exp_char(s[0]) {
        0
    } else {
        1 + first_exp(s.drop_first())
    }
}

pub proof fn lemma_first_exp_props(s: Seq<char>)
    ensures
        0 <= first_exp(s) <= s.len(),
        first_exp(s) < s.len() ==> is_exp_char(s[first_exp(s)]),
        forall|m: int| 0 <= m < first_exp(s) ==> !is_exp_char(#[trigger] s[m]),
    decreases s.len(),
{
    if s.len() > 0 && !is_exp_char(s[0]) {
        lemma_first_exp_props(s.drop_first());
        assert forall|m: int| 0 <= m < first_exp(s) implies !is_exp_char(#[trigger] s[m]) by {
            if m > 0 {
                assert(s.drop_first()[m - 1] == s[m]);
                assert(!is_exp_char(s.drop_first()[m - 1]));
            }
        }
    }
}

pub proof fn lemma_first_exp_at(s: Seq<char>, k: int)
    requires
        0 <= k <= s.len(),
        forall|m: int| 0 <= m < k ==> !is_exp_char(#[trigger] s[m]),
        k < s.len() ==> is_exp_char(s[k]),
    ensures
        first_exp(s) == k,
    decreases s.len(),
{
    if s.len() > 0 && k > 0 {
        lemma_first_exp_at(s.drop_first(), k - 1);
    }
}

/// A magnitude clamped to the fixed-point range and signed.
pub open spec fn clamped_signed(mag: int, neg: bool) -> int {
    let c = if mag > i64::MAX {
        i64::MAX as int
    } else {
        mag
    };
    if neg {
        -c
    } else {
        c
    }
}

/// The mantissa digits shifted by `shift` decimal places: zeros appended
/// for a left shift, trailing digits dropped (truncation toward zero)
/// for a right shift.
pub open spec fn shifted_val(digits: Seq<char>, shift: int) -> int {
    if shift >= 0 {
        digits_val(digits) * pow10(shift as nat)
    } else if digits.len() + shift > 0 {
        digits_val(digits.subrange(0, digits.len() + shift))
    } else {
        0
    }
}

/// The unsigned remainder of a decimal string, its sign stripped.
pub open spec fn spec_body(s: Seq<char>) -> Seq<char> {
    if s.len() > 0 && (s[0] == '+' || s[0] == '-') {
        s.drop_first()
    } else {
        s
    }
}

pub open spec fn spec_neg(s: Seq<char>) -> bool {
    s.len() > 0 && s[0] == '-'
}

/// The mantissa: the body up to the first exponent marker.
pub open spec fn spec_mant(body: Seq<char>) -> Seq<char> {
    body.subrange(0, first_exp(body))
}

pub open spec fn spec_has_exp(body: Seq<char>) -> bool {
    first_exp(body) < body.len()
}

/// The exponent text after the marker, its sign stripped.
pub open spec fn spec_edigits(body: Seq<char>) -> Seq<char> {
    let exp_part = body.subrange(
        if spec_has_exp(body) {
            first_exp(body) + 1
        } else {
            first_exp(body)
        },
        body.len() as int,
    );
    if exp_part.len() > 0 && (exp_part[0] == '+' || exp_part[0] == '-') {
        exp_part.drop_first()
    } else {
        exp_part
    }
}

pub open spec fn spec_eneg(body: Seq<char>) -> bool {
    let exp_part = body.subrange(
        if spec_has_exp(body) {
            first_exp(body) + 1
        } else {
            first_exp(body)
        },
        body.len() as int,
    );
    exp_part.len() > 0 && exp_part[0] == '-'
}

pub open spec fn spec_exp_val(body: Seq<char>) -> int {
    if !spec_has_exp(body) {
        0
    } else if spec_eneg(body) {
        -digits_val(spec_edigits(body))
    } else {
        digits_val(spec_edigits(body))
    }
}

/// The integer digits of a mantissa.
pub open spec fn spec_intp(mant: Seq<char>) -> Seq<char> {
    mant.subrange(0, first_dot(mant))
}

/// The fraction digits of a mantissa.
pub open spec fn spec_frac(mant: Seq<char>) -> Seq<char> {
    if first_dot(mant) < mant.len() {
        mant.subrange(first_dot(mant) + 1, mant.len() as int)
    } else {
        Seq::empty()
    }
}

/// A well-formed decimal string: digits with at most one point and at
/// least one digit, then an optional signed all-digit exponent.
#[verifier::opaque]
pub open spec fn spec_decimal_valid(s: Seq<char>) -> bool {
    let body = spec_body(s);
    let mant = spec_mant(body);
    &&& all_digits(spec_intp(mant))
    &&& all_digits(spec_frac(mant))
    &&& spec_intp(mant).len() + spec_frac(mant).len() >= 1
    &&& (!spec_has_exp(body) || (spec_edigits(body).len() >= 1 && all_digits(spec_edigits(body))))
}

/// The value, in millionths, a decimal string denotes: an optional
/// sign, digits with at most one point and at least one digit, then an
/// optional exponent (`e`/`E`, optional sign, digits). The magnitude is
/// the digit string shifted by `6 + exponent - fraction length` places,
/// clamped to the i64 range. Anything else denotes nothing.
#[verifier::opaque]
pub open spec fn decimal_micros(s: Seq<char>) -> Option<int> {
    if spec_decimal_valid(s) {
        let body = spec_body(s);
        let mant = spec_mant(body);
        Some(
            clamped_signed(
                shifted_val(
                    spec_intp(mant) + spec_frac(mant),
                    6 + spec_exp_val(body) - spec_frac(mant).len(),
                ),
                spec_neg(s),
            ),
        )
    } else {
        None
    }
}

fn is_digit_char(c: char) -> (r: bool)
    ensures
        r == is_digit(c),
{
    c >= '0' && c <= '9'
}

/// 10^k for a small k, as an unsigned wide word.
fn pow10_u128(k: usize) -> (r: u128)
    requires
        k <= 19,
    ensures
        r as int == pow10(k as nat),
{
    proof {
        lemma_pow10_vals();
    }
    let mut r: u128 = 1;
    let mut c: usize = 0;
    while c < k
        invariant
            c <= k <= 19,
            r as int == pow10(c as nat),
            pow10(19) == 10_000_000_000_000_000_000,
        decreases k - c,
    {
        proof {
            lemma_pow10_mono((c + 1) as nat, 19);
        }
        r = r * 10;
        c = c + 1;
    }
    r
}

/// Accumulate the first `take` of the digits standing in `cs[a0..a1]`
/// then `cs[b0..b1]`, saturating at 10^19: the flag reports that the
/// value reached the saturation bound.
fn digits_prefix_val(
    cs: &Vec<char>,
    a0: usize,
    a1: usize,
    b0: usize,
    b1: usize,
    take: usize,
) -> (r: (u128, bool))
    requires
        a0 <= a1 <= cs@.len(),
        b0 <= b1 <= cs@.len(),
        take <= (a1 - a0) + (b1 - b0),
        forall|t: int| a0 <= t < a1 ==> is_digit(#[trigger] cs@[t]),
        forall|t: int| b0 <= t < b1 ==> is_digit(#[trigger] cs@[t]),
    ensures
        ({
            let digits = cs@.subrange(a0 as int, a1 as int) + cs@.subrange(b0 as int, b1 as int);
            &&& (r.1 ==> digits_val(digits.subrange(0, take as int)) >= pow10(19))
            &&& (!r.1 ==> r.0 as int == digits_val(digits.subrange(0, take as int)) && (r.0 as int)
                < pow10(19))
        }),
{
    let ghost digits = cs@.subrange(a0 as int, a1 as int) + cs@.subrange(b0 as int, b1 as int);
    proof {
        lemma_pow10_vals();
        assert(forall|t: int|
            0 <= t < (a1 - a0) ==> #[trigger] digits[t] == cs@[a0 + t]);
        assert(forall|t: int|
            (a1 - a0) <= t < digits.len() ==> #[trigger] digits[t] == cs@[b0 + (t - (a1 - a0))]);
    }
    let alen = a1 - a0;
    let mut acc: u128 = 0;
    let mut sat = false;
    let mut t: usize = 0;
    while t < take
        invariant
            t <= take,
            take <= digits.len(),
            alen == a1 - a0,
            a0 <= a1 <= cs@.len(),
            b0 <= b1 <= cs@.len(),
            take <= (a1 - a0) + (b1 - b0),
            digits == cs@.subrange(a0 as int, a1 as int) + cs@.subrange(b0 as int, b1 as int),
            forall|u: int| a0 <= u < a1 ==> is_digit(#[trigger] cs@[u]),
            forall|u: int| b0 <= u < b1 ==> is_digit(#[trigger] cs@[u]),
            pow10(19) == 10_000_000_000_000_000_000,
            sat ==> digits_val(digits.subrange(0, t as int)) >= pow10(19),
            !sat ==> acc as int == digits_val(digits.subrange(0, t as int)) && (acc as int)
                < pow10(19),
        decreases take - t,
    {
        let c = if t < alen {
            cs[a0 + t]
        } else {
            cs[b0 + (t - alen)]
        };
        proof {
            assert(digits[t as int] == c);
            assert(is_digit(c));
            assert(digits.subrange(0, t + 1).drop_last() =~= digits.subrange(0, t as int));
            assert(digits.subrange(0, t + 1).last() == digits[t as int]);
            if sat {
                let v = digits_val(digits.subrange(0, t as int));
                assert(forall|u: int|
                    0 <= u < t ==> is_digit(#[trigger] digits.subrange(0, t as int)[u]));
                lemma_digits_val_bound(digits.subrange(0, t as int));
                assert(v * 10 + digit_val(digits[t as int]) >= v);
            }
        }
        if !sat {
            let d: u128 = (c as u32 as u128) - 48;
            let next = acc * 10 + d;
            if next >= 10_000_000_000_000_000_000u128 {
                sat = true;
                proof {
                    assert(digits_val(digits.subrange(0, t + 1)) == (next as int));
                }
            } else {
                acc = next;
            }
        }
        t = t + 1;
    }
    (acc, sat)
}

/// Whether every digit in `cs[a0..a1]` and `cs[b0..b1]` is zero.
fn all_zero_digits(cs: &Vec<char>, a0: usize, a1: usize, b0: usize, b1: usize) -> (r: bool)
    requires
        a0 <= a1 <= cs@.len(),
        b0 <= b1 <= cs@.len(),
    ensures
        r == ((forall|t: int| a0 <= t < a1 ==> (#[trigger] cs@[t]) == '0') && (forall|t: int|
            b0 <= t < b1 ==> (#[trigger] cs@[t]) == '0')),
{
    let mut t: usize = a0;
    while t < a1
        invariant
            a0 <= t <= a1 <= cs@.len(),
            forall|u: int| a0 <= u < t ==> (#[trigger] cs@[u]) == '0',
        decreases a1 - t,
    {
        if cs[t] != '0' {
            return false;
        }
        t = t + 1;
    }
    let mut u: usize = b0;
    while u < b1
        invariant
            b0 <= u <= b1 <= cs@.len(),
            forall|v: int| b0 <= v < u ==> (#[trigger] cs@[v]) == '0',
        decreases b1 - u,
    {
        if cs[u] != '0' {
            return false;
        }
        u = u + 1;
    }
    true
}

/// Parse a decimal string into millionths, with zero for anything that
/// does not parse — the default the position extractor applies.
#[verifier::rlimit(100)]
pub fn parse_decimal_micros(s: &str) -> (r: i64)
    ensures
        match decimal_micros(s@) {
            Some(v) => r as int == v,
            None => r == 0,
        },
{
    let cs = chars_of(s);
    let n = cs.len();
    let mut start: usize = 0;
    let mut neg = false;
    if n > 0 && (cs[0] == '+' || cs[0] == '-') {
        neg = cs[0] == '-';
        start = 1;
    }
    let ghost body = spec_body(s@);
    proof {
        assert(body =~= s@.subrange(start as int, n as int));
        assert(neg == spec_neg(s@));
    }
    // Scan the integer digits.
    let mut i: usize = start;
    while i < n && is_digit_char(cs[i])
        invariant
            start <= i <= n,
            n == cs@.len(),
            cs@ == s@,
            forall|k: int| start <= k < i ==> is_digit(#[trigger] cs@[k]),
        decreases n - i,
    {
        i = i + 1;
    }
    let int_digits = i - start;
    // The fraction digits, when a point follows.
    let has_dot = i < n && cs[i] == '.';
    let fstart = if has_dot {
        i + 1
    } else {
        i
    };
    let mut j: usize = fstart;
    while j < n && is_digit_char(cs[j])
        invariant
            fstart <= j <= n,
            n == cs@.len(),
            cs@ == s@,
            forall|k: int| fstart <= k < j ==> is_digit(#[trigger] cs@[k]),
        decreases n - j,
    {
        j = j + 1;
    }
    let mant_end = if has_dot {
        j
    } else {
        i
    };
    let frac_digits = if has_dot {
        j - fstart
    } else {
        0
    };
    proof {
        assert(forall|k: int| start <= k < i ==> !is_exp_char(#[trigger] cs@[k]) && (
        #[trigger] cs@[k]) != '.');
        if has_dot {
            assert(forall|k: int|
                fstart <= k < j ==> !is_exp_char(#[trigger] cs@[k]) && (#[trigger] cs@[k]) != '.');
            assert(!is_exp_char(cs@[i as int]));
        }
        assert(forall|m: int| 0 <= m < mant_end - start ==> !is_exp_char(#[trigger] body[m]));
    }
    let has_exp = mant_end < n && (cs[mant_end] == 'e' || cs[mant_end] == 'E');
    if mant_end < n && !has_exp {
        // A stray character inside the mantissa: the mantissa taken up to
        // the first exponent marker holds a non-digit beyond any dot.
        proof {
            reveal(decimal_micros);
            lemma_stray_in_mantissa(s@, body, start as int, i as int, mant_end as int, has_dot);
        }
        return 0;
    }
    let ghost fe = (mant_end - start) as int;
    proof {
        lemma_first_exp_at(body, fe);
        assert(spec_mant(body) =~= s@.subrange(start as int, mant_end as int));
        let mant = spec_mant(body);
        lemma_first_dot_at(mant, i - start);
        assert(spec_intp(mant) =~= s@.subrange(start as int, i as int));
        if has_dot {
            assert(spec_frac(mant) =~= s@.subrange(fstart as int, mant_end as int));
        } else {
            assert(spec_frac(mant) =~= Seq::<char>::empty());
        }
        assert(spec_has_exp(body) == has_exp);
    }
    if int_digits == 0 && frac_digits == 0 {
        proof {
            reveal(spec_decimal_valid);
            reveal(decimal_micros);
            assert(!spec_decimal_valid(s@));
        }
        return 0;
    }
    // The exponent digits, when a marker follows.
    let mut eneg = false;
    let mut es: usize = mant_end;
    if has_exp {
        es = mant_end + 1;
        if es < n && (cs[es] == '+' || cs[es] == '-') {
            eneg = cs[es] == '-';
            es = es + 1;
        }
        let mut k: usize = es;
        while k < n && is_digit_char(cs[k])
            invariant
                es <= k <= n,
                n == cs@.len(),
                cs@ == s@,
                forall|m: int| es <= m < k ==> is_digit(#[trigger] cs@[m]),
            decreases n - k,
        {
            k = k + 1;
        }
        proof {
            assert(spec_edigits(body) =~= s@.subrange(es as int, n as int));
            assert(spec_eneg(body) == eneg);
        }
        if k < n {
            proof {
                reveal(spec_decimal_valid);
                reveal(decimal_micros);
                assert(!is_digit(spec_edigits(body)[k - es]));
                assert(!spec_decimal_valid(s@));
            }
            return 0;
        }
        if k == es {
            proof {
                reveal(spec_decimal_valid);
                reveal(decimal_micros);
                assert(spec_edigits(body).len() == 0);
                assert(!spec_decimal_valid(s@));
            }
            return 0;
        }
    }
    proof {
        reveal(spec_decimal_valid);
        assert(spec_decimal_valid(s@));
        if !has_dot {
            assert(spec_frac(spec_mant(body)) =~= cs@.subrange(fstart as int, fstart as int));
        }
    }
    finish_valid_decimal(s, &cs, start, i, fstart, if has_dot {
        j
    } else {
        fstart
    }, mant_end, neg, has_exp, eneg, es)
}

/// Finish a well-formed decimal: read the exponent and emit the shifted,
/// clamped value.
#[verifier::rlimit(100)]
fn finish_valid_decimal(
    s: &str,
    cs: &Vec<char>,
    start: usize,
    i: usize,
    fstart: usize,
    fend: usize,
    mant_end: usize,
    neg: bool,
    has_exp: bool,
    eneg: bool,
    es: usize,
) -> (r: i64)
    requires
        cs@ == s@,
        spec_decimal_valid(s@),
        neg == spec_neg(s@),
        start <= i <= fstart <= fend <= mant_end <= es <= cs@.len(),
        spec_intp(spec_mant(spec_body(s@))) == cs@.subrange(start as int, i as int),
        spec_frac(spec_mant(spec_body(s@))) == cs@.subrange(fstart as int, fend as int),
        spec_has_exp(spec_body(s@)) == has_exp,
        has_exp ==> spec_edigits(spec_body(s@)) == cs@.subrange(es as int, cs@.len() as int),
        has_exp ==> spec_eneg(spec_body(s@)) == eneg,
        has_exp ==> es < cs@.len(),
        forall|k: int| start <= k < i ==> is_digit(#[trigger] cs@[k]),
        forall|k: int| fstart <= k < fend ==> is_digit(#[trigger] cs@[k]),
        forall|k: int| es <= k < cs@.len() ==> is_digit(#[trigger] cs@[k]) || !has_exp,
    ensures
        match decimal_micros(s@) {
            Some(v) => r as int == v,
            None => r == 0,
        },
{
    let n = cs.len();
    let ghost body = spec_body(s@);
    let ghost mant = spec_mant(body);
    let int_digits = i - start;
    let frac_digits = fend - fstart;
    let ghost digits = spec_intp(mant) + spec_frac(mant);
    proof {
        reveal(spec_decimal_valid);
        reveal(decimal_micros);
        assert(digits.len() == int_digits + frac_digits);
        lemma_pow10_vals();
    }
    // The exponent value: leading zeros stripped, then exact when at
    // most twenty-one digits remain; farther out only its sign and the
    // mantissa's zeroness matter.
    let mut ez: usize = es;
    while ez < n && cs[ez] == '0'
        invariant
            es <= ez <= n,
            n == cs@.len(),
            cs@ == s@,
            forall|m: int| es <= m < ez ==> (#[trigger] cs@[m]) == '0',
        decreases n - ez,
    {
        ez = ez + 1;
    }
    let ghost e: int = spec_exp_val(body);
    proof {
        if has_exp {
            let edigits = spec_edigits(body);
            assert(edigits =~= s@.subrange(es as int, n as int));
            // Leading zeros of the exponent contribute nothing.
            lemma_digits_val_split(edigits, ez - es);
            let zpre = edigits.subrange(0, ez - es);
            assert(all_digits(zpre) && forall|m: int|
                0 <= m < zpre.len() ==> (#[trigger] zpre[m]) == '0') by {
                assert(forall|m: int| 0 <= m < zpre.len() ==> #[trigger] zpre[m] == cs@[es + m]);
            }
            lemma_digits_val_zero(zpre);
            assert(digits_val(edigits) == digits_val(
                edigits.subrange(ez - es, edigits.len() as int),
            ));
            assert(edigits.subrange(ez - es, edigits.len() as int) =~= cs@.subrange(
                ez as int,
                n as int,
            ));
        } else {
            assert(e == 0);
        }
        assert(forall|m: int|
            0 <= m < digits.len() ==> #[trigger] digits[m] == (if m < int_digits {
                cs@[start + m]
            } else {
                cs@[fstart + (m - int_digits)]
            }));
        assert(all_digits(digits));
    }
    if has_exp && n - ez > 21 {
        // The exponent's magnitude is at least 10^21, far past anything a
        // string-length mantissa can compensate.
        let zr = all_zero_digits(cs, start, i, fstart, fend);
        proof {
            let sig = cs@.subrange(ez as int, n as int);
            assert(sig[0] == cs@[ez as int]);
            assert(all_digits(sig)) by {
                assert(forall|m: int| 0 <= m < sig.len() ==> #[trigger] sig[m] == cs@[ez + m]);
            }
            lemma_leading_nonzero(sig);
            lemma_pow10_mono(21, (sig.len() - 1) as nat);
            assert(digits_val(spec_edigits(body)) >= pow10(21));
            lemma_digits_val_zero(digits);
            assert(zr == (forall|m: int|
                0 <= m < digits.len() ==> (#[trigger] digits[m]) == '0')) by {
                if forall|m: int| 0 <= m < digits.len() ==> (#[trigger] digits[m]) == '0' {
                    assert(forall|u: int|
                        start <= u < i ==> (#[trigger] cs@[u]) == digits[u - start]);
                    assert(forall|u: int|
                        fstart <= u < fend ==> (#[trigger] cs@[u]) == digits[int_digits + (u
                            - fstart)]);
                }
            }
        }
        if zr {
            proof {
                assert(forall|m: int| 0 <= m < digits.len() ==> (#[trigger] digits[m]) == '0');
                lemma_shifted_zero(digits, 6 + e - frac_digits);
            }
            return 0;
        }
        if eneg {
            proof {
                assert(digits.len() <= usize::MAX);
                assert(digits.len() + (6 + e - frac_digits) <= 0);
            }
            return 0;
        }
        proof {
            assert(frac_digits <= usize::MAX);
            assert(6 + e - frac_digits >= 19);
            lemma_shifted_saturates(digits, 6 + e - frac_digits);
        }
        if neg {
            return -i64::MAX;
        } else {
            return i64::MAX;
        }
    }
    // Exact accumulation of at most twenty-one exponent digits.
    let mut e_abs: u128 = 0;
    if has_exp {
        let mut k2: usize = ez;
        while k2 < n
            invariant
                ez <= k2 <= n,
                n == cs@.len(),
                cs@ == s@,
                n - ez <= 21,
                forall|m: int| ez <= m < n ==> is_digit(#[trigger] cs@[m]),
                e_abs as int == digits_val(cs@.subrange(ez as int, k2 as int)),
                (e_abs as int) < pow10((k2 - ez) as nat),
                pow10(21) == 1_000_000_000_000_000_000_000,
            decreases n - k2,
        {
            proof {
                assert(cs@.subrange(ez as int, k2 + 1).drop_last() =~= cs@.subrange(
                    ez as int,
                    k2 as int,
                ));
                assert(cs@.subrange(ez as int, k2 + 1).last() == cs@[k2 as int]);
                lemma_pow10_mono((k2 + 1 - ez) as nat, 21);
            }
            let d: u128 = (cs[k2] as u32 as u128) - 48;
            e_abs = e_abs * 10 + d;
            k2 = k2 + 1;
        }
        proof {
            assert(e_abs as int == digits_val(cs@.subrange(ez as int, n as int)));
            lemma_pow10_mono((n - ez) as nat, 21);
            assert(e == if eneg {
                -(e_abs as int)
            } else {
                e_abs as int
            });
        }
    }
    proof {
        lemma_pow10_vals();
        assert((e_abs as int) < pow10(21));
        assert(frac_digits <= usize::MAX);
    }
    let shift: i128 = 6 + (if eneg {
        -(e_abs as i128)
    } else {
        e_abs as i128
    }) - (frac_digits as i128);
    proof {
        assert(shift as int == 6 + e - frac_digits);
    }
    let out = emit_shifted(cs, start, i, fstart, fend, neg, shift);
    proof {
        assert(digits =~= cs@.subrange(start as int, i as int) + cs@.subrange(
            fstart as int,
            fend as int,
        ));
        assert(decimal_micros(s@) == Some(clamped_signed(shifted_val(digits, shift as int), neg)));
    }
    out
}

/// A character that is neither a digit nor a point, standing in the
/// mantissa before any exponent marker, spoils the string.
proof fn lemma_stray_in_mantissa(
    s: Seq<char>,
    body: Seq<char>,
    start: int,
    i: int,
    p_end: int,
    has_dot: bool,
)
    requires
        body == spec_body(s),
        body =~= s.subrange(start, s.len() as int),
        0 <= start <= i <= p_end < s.len(),
        start == s.len() - body.len(),
        forall|k: int| start <= k < i ==> is_digit(#[trigger] s[k]) && (#[trigger] s[k]) != '.',
        has_dot ==> i < p_end && s[i] == '.',
        has_dot ==> forall|k: int|
            i + 1 <= k < p_end ==> is_digit(#[trigger] s[k]) && (#[trigger] s[k]) != '.',
        !has_dot ==> p_end == i,
        !is_digit(s[p_end]) && !is_exp_char(s[p_end]),
        !has_dot ==> s[p_end] != '.',
        forall|m: int| 0 <= m < p_end - start ==> !is_exp_char(#[trigger] body[m]),
    ensures
        !spec_decimal_valid(s),
{
    reveal(spec_decimal_valid);
    let fe = first_exp(body);
    lemma_first_exp_props(body);
    let p = p_end - start;
    assert(body[p] == s[p_end]);
    assert(fe >= p) by {
        if fe < p {
            assert(is_exp_char(body[fe]));
        }
    }
    assert(fe != p) by {
        if fe == p {
            assert(is_exp_char(body[p]));
        }
    }
    let mant = spec_mant(body);
    assert(p < mant.len());
    assert(mant[p] == s[p_end]);
    let d = first_dot(mant);
    lemma_first_dot_props(mant);
    if has_dot {
        lemma_first_dot_at(mant, i - start);
        assert(d == i - start);
        let frac = spec_frac(mant);
        assert(frac[p - d - 1] == mant[p]);
        assert(!is_digit(frac[p - d - 1]));
    } else {
        if d <= p {
            if d < p {
                assert(mant[d] == s[start + d]);
                assert(is_digit(s[start + d]));
                assert(mant[d] == '.');
            } else {
                assert(mant[p] == '.');
            }
        } else {
            assert(spec_intp(mant)[p] == mant[p]);
            assert(!is_digit(spec_intp(mant)[p]));
        }
    }
}

/// A digit string with a nonzero leading digit denotes at least
/// 10^(length - 1).
proof fn lemma_leading_nonzero(s: Seq<char>)
    requires
        all_digits(s),
        s.len() >= 1,
        s[0] != '0',
    ensures
        digits_val(s) >= pow10((s.len() - 1) as nat),
{
    lemma_digits_val_split(s, 1);
    let head = s.subrange(0, 1);
    let tail = s.subrange(1, s.len() as int);
    assert(head.drop_last() =~= Seq::<char>::empty());
    assert(head.last() == s[0]);
    assert(digits_val(Seq::<char>::empty()) == 0);
    assert(digits_val(head) == digit_val(s[0]));
    assert(digit_val(s[0]) >= 1);
    assert(all_digits(tail)) by {
        assert(forall|i: int| 0 <= i < tail.len() ==> #[trigger] tail[i] == s[i + 1]);
    }
    lemma_digits_val_bound(tail);
    let p = pow10((s.len() - 1) as nat);
    let h = digits_val(head);
    assert(h * p >= p) by (nonlinear_arith)
        requires
            h >= 1,
            p >= 1,
    {}
}

/// A zero digit string shifts to zero.
proof fn lemma_shifted_zero(digits: Seq<char>, shift: int)
    requires
        all_digits(digits),
        digits_val(digits) == 0,
    ensures
        shifted_val(digits, shift) == 0,
{
    if shift >= 0 {
    } else if digits.len() + shift > 0 {
        lemma_digits_val_zero(digits);
        let pre = digits.subrange(0, digits.len() + shift);
        assert(all_digits(pre) && forall|i: int|
            0 <= i < pre.len() ==> (#[trigger] pre[i]) == '0') by {
            assert(forall|i: int| 0 <= i < pre.len() ==> #[trigger] pre[i] == digits[i]);
        }
        lemma_digits_val_zero(pre);
    }
}

/// A nonzero digit string shifted nineteen or more places exceeds the
/// fixed-point range.
proof fn lemma_shifted_saturates(digits: Seq<char>, shift: int)
    requires
        all_digits(digits),
        digits_val(digits) != 0,
        shift >= 19,
    ensures
        shifted_val(digits, shift) > i64::MAX,
{
    lemma_pow10_vals();
    lemma_digits_val_bound(digits);
    lemma_pow10_mono(19, shift as nat);
    let dvv = digits_val(digits);
    let p = pow10(shift as nat);
    assert(dvv * p >= p) by (nonlinear_arith)
        requires
            dvv >= 1,
            p >= 1,
    {}
}

/// Shift the digit string standing in `cs[a0..a1]` then `cs[b0..b1]` by
/// `shift` decimal places, clamped to the fixed-point range and signed.
#[verifier::rlimit(60)]
fn emit_shifted(
    cs: &Vec<char>,
    a0: usize,
    a1: usize,
    b0: usize,
    b1: usize,
    neg: bool,
    shift: i128,
) -> (r: i64)
    requires
        a0 <= a1 <= cs@.len(),
        b0 <= b1 <= cs@.len(),
        (a1 - a0) + (b1 - b0) <= usize::MAX,
        forall|t: int| a0 <= t < a1 ==> is_digit(#[trigger] cs@[t]),
        forall|t: int| b0 <= t < b1 ==> is_digit(#[trigger] cs@[t]),
        -0x1_0000_0000_0000_0000_0000_0000 <= (shift as int),
        (shift as int) <= 0x1_0000_0000_0000_0000_0000_0000,
    ensures
        r as int == clamped_signed(
            shifted_val(
                cs@.subrange(a0 as int, a1 as int) + cs@.subrange(b0 as int, b1 as int),
                shift as int,
            ),
            neg,
        ),
{
    let ghost digits = cs@.subrange(a0 as int, a1 as int) + cs@.subrange(b0 as int, b1 as int);
    proof {
        lemma_pow10_vals();
        assert(all_digits(digits)) by {
            assert(forall|m: int|
                0 <= m < digits.len() ==> #[trigger] digits[m] == (if m < a1 - a0 {
                    cs@[a0 + m]
                } else {
                    cs@[b0 + (m - (a1 - a0))]
                }));
        }
    }
    let total = (a1 - a0) + (b1 - b0);
    if shift >= 0 {
        let (dv, sat) = digits_prefix_val(&cs, a0, a1, b0, b1, total);
        proof {
            assert(digits.subrange(0, digits.len() as int) =~= digits);
        }
        if sat {
            proof {
                lemma_pow10_pos(shift as nat);
                let dvv = digits_val(digits);
                assert(dvv * pow10(shift as nat) >= dvv) by (nonlinear_arith)
                    requires
                        dvv >= 0,
                        pow10(shift as nat) >= 1,
                {}
                lemma_digits_val_bound(digits);
            }
            if neg {
                return -i64::MAX;
            } else {
                return i64::MAX;
            }
        }
        if dv == 0 {
            proof {
                assert(digits_val(digits) * pow10(shift as nat) == 0);
            }
            return 0;
        }
        if shift >= 19 {
            proof {
                lemma_pow10_mono(19, shift as nat);
                let dvv = digits_val(digits);
                let pw = pow10(shift as nat);
                assert(dvv * pw >= pw) by (nonlinear_arith)
                    requires
                        dvv >= 1,
                        pw >= 1,
                {}
            }
            if neg {
                return -i64::MAX;
            } else {
                return i64::MAX;
            }
        }
        let scale = pow10_u128(shift as usize);
        proof {
            let dvv = dv as int;
            let pw = scale as int;
            lemma_pow10_mono(shift as nat, 19);
            lemma_pow10_pos(shift as nat);
            assert(dvv * pw < pow10(19) * pow10(19)) by (nonlinear_arith)
                requires
                    0 <= dvv && dvv < pow10(19),
                    1 <= pw && pw <= pow10(19),
            {}
            assert(pow10(19) * pow10(19) < 0x1_0000_0000_0000_0000_0000_0000_0000_0000)
                by (nonlinear_arith)
                requires
                    pow10(19) == 10_000_000_000_000_000_000,
            {}
        }
        let mag = dv * scale;
        let out = if mag > i64::MAX as u128 {
            i64::MAX
        } else {
            mag as i64
        };
        if neg {
            -out
        } else {
            out
        }
    } else {
        let l128 = total as i128;
        if -shift >= l128 {
            return 0;
        }
        let keep = (l128 + shift) as usize;
        let (dv, sat) = digits_prefix_val(&cs, a0, a1, b0, b1, keep);
        if sat {
            if neg {
                return -i64::MAX;
            } else {
                return i64::MAX;
            }
        }
        let out = if dv > i64::MAX as u128 {
            i64::MAX
        } else {
            dv as i64
        };
        if neg {
            -out
        } else {
            out
        }
    }
}

} // verus!
