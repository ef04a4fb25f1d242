//! Oto.ini timing values.
//!
//! Oto.ini stores offsets and lengths in milliseconds as decimal numbers,
//! read as `f64`'s parser reads them (sign, digits, point, exponent). The
//! library holds them as whole microseconds in an `i64` (thousandths of a
//! millisecond): a field reads as the number it spells, truncated toward
//! zero to whole microseconds.
use vstd::prelude::*;
use crate::text::{digit_char, find_char, index_of_in, lemma_find_char, nat_text, push_nat_text, trim};


verus! {

pub open spec fn is_digit(c: char) -> bool {
    '0' <= c && c <= '9'
}

pub open spec fn all_digits(d: Seq<char>) -> bool {
    forall|i: int| 0 <= i < d.len() ==> is_digit(#[trigger] d[i])
}

/// The number that a run of decimal digits spells.
pub open spec fn digits_value(d: Seq<char>) -> nat
    decreases d.len(),
{
    if d.len() == 0 {
        0
    } else {
        (digits_value(d.drop_last()) * 10 + ((d.last() as int) - 48)) as nat
    }
}

/// Ten to the power `n`.
pub open spec fn pow10(n: nat) -> nat
    decreases n,
{
    if n == 0 {
        1
    } else {
        10 * pow10((n - 1) as nat)
    }
}

/// The number spelt by the digits `d` times ten to the power `k`, with
/// what falls after the decimal point dropped: for negative `k` the last
/// `-k` digits are dropped, which is division by `10^-k` rounded down.
pub open spec fn scaled_value(d: Seq<char>, k: int) -> nat {
    if k >= 0 {
        digits_value(d) * pow10(k as nat)
    } else if -k >= d.len() {
        0
    } else {
        digits_value(d.take(d.len() + k))
    }
}

/// An exponent marker, as `f64`'s parser takes it.
pub open spec fn is_exp_marker(c: char) -> bool {
    c == 'e' || c == 'E'
}

/// Index of the first exponent marker in `s`, if any.
pub open spec fn find_exp(s: Seq<char>) -> Option<int>
    decreases s.len(),
{
    if s.len() == 0 {
        None
    } else if is_exp_marker(s[0]) {
        Some(0)
    } else {
        match find_exp(s.drop_first()) {
            Some(i) => Some(i + 1),
            None => None,
        }
    }
}

/// `find_exp` gives the first exponent marker, or `None` when there is none.
pub proof fn lemma_find_exp(s: Seq<char>)
    ensures
        match find_exp(s) {
            Some(i) => 0 <= i < s.len() && is_exp_marker(s[i]) && forall|k: int|
                0 <= k < i ==> !is_exp_marker(#[trigger] s[k]),
            None => forall|k: int| 0 <= k < s.len() ==> !is_exp_marker(#[trigger] s[k]),
        },
    decreases s.len(),
{
    if s.len() > 0 && !is_exp_marker(s[0]) {
        lemma_find_exp(s.drop_first());
        assert forall|k: int| 0 < k < s.len() implies s[k] == s.drop_first()[k - 1] by {}
    }
}

/// Value of an exponent: an optional sign and at least one digit.
pub open spec fn exponent_value(x: Seq<char>) -> Option<int> {
    if x.len() > 0 && (x[0] == '-' || x[0] == '+') {
        let d = x.drop_first();
        if d.len() > 0 && all_digits(d) {
            if x[0] == '-' {
                Some(-digits_value(d))
            } else {
                Some(digits_value(d) as int)
            }
        } else {
            None
        }
    } else if x.len() > 0 && all_digits(x) {
        Some(digits_value(x) as int)
    } else {
        None
    }
}

/// Value in microseconds of a mantissa of milliseconds (digits, optionally
/// a point and more digits, at least one digit in all) times `10^e`,
/// truncated to whole microseconds.
pub open spec fn mantissa_micros(m: Seq<char>, e: int) -> Option<int> {
    let ip = match find_char(m, '.') {
        Some(i) => m.take(i),
        None => m,
    };
    let fp = match find_char(m, '.') {
        Some(i) => m.skip(i + 1),
        None => Seq::<char>::empty(),
    };
    if all_digits(ip) && all_digits(fp) && ip.len() + fp.len() > 0 {
        Some(scaled_value(ip + fp, e + 3 - fp.len()) as int)
    } else {
        None
    }
}

/// Value in microseconds of an unsigned decimal number of milliseconds, as
/// `f64`'s parser reads it: a mantissa, then optionally `e` or `E` and a
/// signed exponent.
pub open spec fn unsigned_micros(b: Seq<char>) -> Option<int> {
    match find_exp(b) {
        Some(i) => match exponent_value(b.skip(i + 1)) {
            Some(e) => mantissa_micros(b.take(i), e),
            None => None,
        },
        None => mantissa_micros(b, 0),
    }
}

/// Value in microseconds of a decimal number of milliseconds with an
/// optional sign, or `None` when `s` is not such a number.
pub open spec fn parse_micros(s: Seq<char>) -> Option<int> {
    if s.len() > 0 && s[0] == '-' {
        match unsigned_micros(s.drop_first()) {
            Some(x) => Some(-x),
            None => None,
        }
    } else if s.len() > 0 && s[0] == '+' {
        unsigned_micros(s.drop_first())
    } else {
        unsigned_micros(s)
    }
}

/// What a field of an oto.ini line reads as: the number it spells once
/// trimmed, or 0 when it is not a number or does not fit.
pub open spec fn field_micros(s: Seq<char>) -> int {
    match parse_micros(trim(s)) {
        Some(x) => if i64::MIN <= x <= i64::MAX {
            x
        } else {
            0
        },
        None => 0,
    }
}

/// A run of digits is worth at least any of its prefixes.
pub proof fn lemma_digits_value_prefix(d: Seq<char>, k: int)
    requires
        all_digits(d),
        0 <= k <= d.len(),
    ensures
        digits_value(d) >= digits_value(d.take(k)),
    decreases d.len(),
{
    if k < d.len() {
        assert(d.drop_last().take(k) =~= d.take(k));
        assert(is_digit(d[d.len() - 1]));
        lemma_digits_value_prefix(d.drop_last(), k);
    } else {
        assert(d.take(k) =~= d);
    }
}

/// Powers of ten grow past their exponent.
pub proof fn lemma_pow10_above(n: nat)
    ensures
        pow10(n) > n,
        pow10(n) >= 1,
    decreases n,
{
    if n > 0 {
        lemma_pow10_above((n - 1) as nat);
    }
}

/// Powers of ten grow with their exponent.
pub proof fn lemma_pow10_monotone(n: nat, m: nat)
    requires
        n <= m,
    ensures
        pow10(n) <= pow10(m),
    decreases m,
{
    if n < m {
        lemma_pow10_monotone(n, (m - 1) as nat);
        lemma_pow10_above((m - 1) as nat);
    }
}

/// `a * p <= b * q` for `1 <= a <= b`, `1 <= p <= q`.
proof fn lemma_mul_le(a: int, b: int, p: int, q: int)
    requires
        0 <= a <= b,
        0 <= p <= q,
    ensures
        a * p <= b * q,
{
    assert(a * p <= b * q) by (nonlinear_arith)
        requires
            0 <= a <= b,
            0 <= p <= q,
    ;
}

/// Whether every character of `v[lo..hi]` is a decimal digit.
fn all_digits_in(v: &Vec<char>, lo: usize, hi: usize) -> (r: bool)
    requires
        lo <= hi <= v@.len(),
    ensures
        r == all_digits(v@.subrange(lo as int, hi as int)),
{
    let mut k = lo;
    while k < hi
        invariant
            lo <= k <= hi <= v@.len(),
            forall|i: int| lo <= i < k ==> is_digit(v@[i]),
        decreases hi - k,
    {
        if !('0' <= v[k] && v[k] <= '9') {
            assert(!is_digit(v@.subrange(lo as int, hi as int)[k - lo]));
            return false;
        }
        k = k + 1;
    }
    assert forall|i: int| 0 <= i < hi - lo implies is_digit(
        #[trigger] v@.subrange(lo as int, hi as int)[i],
    ) by {
        assert(v@.subrange(lo as int, hi as int)[i] == v@[lo + i]);
    }
    true
}

/// Continues reading digits: the value of `base` followed by `v[lo..hi]`,
/// given `acc`, the value of `base`; `None` when it passes `cap`.
fn digits_value_cont(
    v: &Vec<char>,
    lo: usize,
    hi: usize,
    Ghost(base): Ghost<Seq<char>>,
    acc: u128,
    cap: u128,
) -> (r: Option<u128>)
    requires
        lo <= hi <= v@.len(),
        all_digits(base),
        all_digits(v@.subrange(lo as int, hi as int)),
        acc == digits_value(base),
        acc <= cap <= 1_000_000_000_000_000_000_000_000_000_000u128,
    ensures
        match r {
            Some(x) => x == digits_value(base + v@.subrange(lo as int, hi as int)) && x <= cap,
            None => digits_value(base + v@.subrange(lo as int, hi as int)) > cap,
        },
{
    let ghost full = base + v@.subrange(lo as int, hi as int);
    assert(all_digits(full)) by {
        assert forall|i: int| 0 <= i < full.len() implies is_digit(#[trigger] full[i]) by {
            if i >= base.len() {
                assert(full[i] == v@.subrange(lo as int, hi as int)[i - base.len()]);
            }
        }
    }
    let mut acc = acc;
    let mut k = lo;
    assert(full.take(base.len() as int) =~= base);
    while k < hi
        invariant
            lo <= k <= hi <= v@.len(),
            full == base + v@.subrange(lo as int, hi as int),
            all_digits(full),
            acc <= cap <= 1_000_000_000_000_000_000_000_000_000_000u128,
            acc == digits_value(full.take(base.len() + k - lo)),
        decreases hi - k,
    {
        let ghost n = base.len() + k - lo;
        assert(is_digit(full[n]));
        assert(full.take(n + 1).drop_last() =~= full.take(n));
        assert(full.take(n + 1).last() == v@[k as int]);
        let dig: u128 = ((v[k] as u32) - 48) as u128;
        acc = acc * 10 + dig;
        k = k + 1;
        if acc > cap {
            proof {
                lemma_digits_value_prefix(full, n + 1);
            }
            return None;
        }
    }
    assert(full.take(full.len() as int) =~= full);
    Some(acc)
}

/// The first exponent marker in `v[lo..hi]`.
fn find_exp_in(v: &Vec<char>, lo: usize, hi: usize) -> (r: Option<usize>)
    requires
        lo <= hi <= v@.len(),
    ensures
        match find_exp(v@.subrange(lo as int, hi as int)) {
            Some(i) => r == Some((lo + i) as usize),
            None => r is None,
        },
{
    let ghost s = v@.subrange(lo as int, hi as int);
    proof {
        lemma_find_exp(s);
    }
    let mut q = lo;
    while q < hi
        invariant
            lo <= q <= hi <= v@.len(),
            s == v@.subrange(lo as int, hi as int),
            forall|k: int| lo <= k < q ==> !is_exp_marker(v@[k]),
        decreases hi - q,
    {
        if v[q] == 'e' || v[q] == 'E' {
            proof {
                lemma_find_exp(s);
                assert(is_exp_marker(s[q - lo]));
                match find_exp(s) {
                    Some(i) => {
                        if i < q - lo {
                            assert(s[i] == v@[lo + i]);
                        }
                    },
                    None => {},
                }
            }
            return Some(q);
        }
        q = q + 1;
    }
    proof {
        lemma_find_exp(s);
        match find_exp(s) {
            Some(i) => {
                assert(s[i] == v@[lo + i]);
            },
            None => {},
        }
    }
    None
}

/// Two to the 63rd: the largest magnitude an `i64` holds (for negatives).
pub open spec fn magnitude_limit() -> int {
    9_223_372_036_854_775_808
}

/// Exponent of `v[lo..hi]`: `Ok(Some(e))` for a small exponent, `Ok(None)`
/// for one beyond 10^30 in magnitude (its sign in the flag), `Err` when it
/// is not an exponent.
fn exponent_in(v: &Vec<char>, lo: usize, hi: usize) -> (r: Result<(Option<i128>, bool), ()>)
    requires
        lo <= hi <= v@.len(),
    ensures
        match r {
            Ok((Some(e), _)) => exponent_value(v@.subrange(lo as int, hi as int)) == Some(
                e as int,
            ) && -1_000_000_000_000_000_000_000_000_000_000 <= e
                <= 1_000_000_000_000_000_000_000_000_000_000,
            Ok((None, negative)) => exponent_value(v@.subrange(lo as int, hi as int)) matches Some(
                e,
            ) && if negative {
                e < -1_000_000_000_000_000_000_000_000_000_000
            } else {
                e > 1_000_000_000_000_000_000_000_000_000_000
            },
            Err(()) => exponent_value(v@.subrange(lo as int, hi as int)) is None,
        },
{
    let ghost x = v@.subrange(lo as int, hi as int);
    let mut start = lo;
    let mut negative = false;
    if lo < hi && (v[lo] == '-' || v[lo] == '+') {
        negative = v[lo] == '-';
        start = lo + 1;
        assert(x.drop_first() =~= v@.subrange(start as int, hi as int));
    } else {
        assert(x =~= v@.subrange(start as int, hi as int));
    }
    if start == hi || !all_digits_in(v, start, hi) {
        return Err(());
    }
    assert(Seq::<char>::empty() + v@.subrange(start as int, hi as int) =~= v@.subrange(
        start as int,
        hi as int,
    ));
    match digits_value_cont(
        v,
        start,
        hi,
        Ghost(Seq::<char>::empty()),
        0,
        1_000_000_000_000_000_000_000_000_000_000u128,
    ) {
        Some(d) => {
            let e: i128 = if negative {
                -(d as i128)
            } else {
                d as i128
            };
            Ok((Some(e), negative))
        },
        None => Ok((None, negative)),
    }
}

/// The mantissa `v[lo..hi]` split at its point: `(int_end, frac_start)`,
/// with `int_end == frac_start == hi` when it has none.
fn mantissa_parts(v: &Vec<char>, lo: usize, hi: usize) -> (r: (usize, usize))
    requires
        lo <= hi <= v@.len(),
    ensures
        lo <= r.0 <= r.1 <= hi,
        match find_char(v@.subrange(lo as int, hi as int), '.') {
            Some(i) => v@.subrange(lo as int, hi as int).take(i) == v@.subrange(lo as int, r.0 as int)
                && v@.subrange(lo as int, hi as int).skip(i + 1) == v@.subrange(r.1 as int, hi as int),
            None => r.0 == hi && r.1 == hi,
        },
{
    let ghost m = v@.subrange(lo as int, hi as int);
    let point = index_of_in(v, lo, hi, '.');
    proof {
        lemma_find_char(m, '.');
    }
    match point {
        Some(p) => {
            assert(m.take(p - lo) =~= v@.subrange(lo as int, p as int));
            assert(m.skip(p - lo + 1) =~= v@.subrange(p + 1, hi as int));
            (p, p + 1)
        },
        None => (hi, hi),
    }
}

/// `scaled_value(digits, k)` for the digits `v[lo..int_end] ++
/// v[frac_start..hi]`, when it is at most 2^63.
#[verifier::rlimit(40)]
fn scaled_in(
    v: &Vec<char>,
    lo: usize,
    int_end: usize,
    frac_start: usize,
    hi: usize,
    k: i128,
) -> (r: Option<u64>)
    requires
        lo <= int_end <= frac_start <= hi <= v@.len(),
        all_digits(v@.subrange(lo as int, int_end as int)),
        all_digits(v@.subrange(frac_start as int, hi as int)),
        -1_000_000_000_000_000_000_000_000_000_000 <= k
            <= 2_000_000_000_000_000_000_000_000_000_000,
    ensures
        match r {
            Some(x) => x == scaled_value(
                v@.subrange(lo as int, int_end as int) + v@.subrange(frac_start as int, hi as int),
                k as int,
            ) && x <= magnitude_limit(),
            None => scaled_value(
                v@.subrange(lo as int, int_end as int) + v@.subrange(frac_start as int, hi as int),
                k as int,
            ) > magnitude_limit(),
        },
{
    let ghost ip = v@.subrange(lo as int, int_end as int);
    let ghost fp = v@.subrange(frac_start as int, hi as int);
    let ghost d = ip + fp;
    let cap: u128 = 9_223_372_036_854_775_808u128;
    assert(Seq::<char>::empty() + ip =~= ip);
    assert(all_digits(d)) by {
        assert forall|i: int| 0 <= i < d.len() implies is_digit(#[trigger] d[i]) by {
            if i >= ip.len() {
                assert(d[i] == fp[i - ip.len()]);
            } else {
                assert(d[i] == ip[i]);
            }
        }
    }
    let int_len = int_end - lo;
    let frac_len = hi - frac_start;
    if k >= 0 {
        proof {
            lemma_pow10_above(k as nat);
        }
        let n = match digits_value_cont(v, lo, int_end, Ghost(Seq::<char>::empty()), 0, cap) {
            Some(a) => match digits_value_cont(v, frac_start, hi, Ghost(ip), a, cap) {
                Some(b) => b,
                None => {
                    proof {
                        lemma_mul_le(1, pow10(k as nat) as int, digits_value(d) as int, digits_value(d) as int);
                    }
                    return None;
                },
            },
            None => {
                proof {
                    lemma_digits_value_prefix(d, ip.len() as int);
                    assert(d.take(ip.len() as int) =~= ip);
                    lemma_mul_le(1, pow10(k as nat) as int, digits_value(d) as int, digits_value(d) as int);
                }
                return None;
            },
        };
        if n == 0 {
            assert(scaled_value(d, k as int) == 0) by {
                vstd::arithmetic::mul::lemma_mul_basics(pow10(k as nat) as int);
            }
            return Some(0);
        }
        if k >= 19 {
            proof {
                reveal_with_fuel(pow10, 20);
                assert(pow10(19) == 10_000_000_000_000_000_000nat);
                lemma_pow10_monotone(19, k as nat);
                lemma_mul_le(1, n as int, pow10(19) as int, pow10(k as nat) as int);
            }
            return None;
        }
        let mut x: u128 = n;
        let mut j: i128 = 0;
        assert(x == n * pow10(0)) by {
            vstd::arithmetic::mul::lemma_mul_basics(n as int);
        }
        while j < k
            invariant
                0 <= j <= k <= 18,
                d == v@.subrange(lo as int, int_end as int) + v@.subrange(frac_start as int, hi as int),
                1 <= n <= cap,
                n == digits_value(d),
                cap == 9_223_372_036_854_775_808u128,
                x == n * pow10(j as nat),
                x <= cap,
            decreases k - j,
        {
            let ghost p = pow10(j as nat);
            let ghost q = pow10((j + 1) as nat);
            assert(q == 10 * p);
            x = x * 10;
            assert(x == n * q) by (nonlinear_arith)
                requires
                    q == 10 * p,
                    x == (n * p) * 10,
            ;
            j = j + 1;
            if x > cap {
                proof {
                    lemma_pow10_monotone(j as nat, k as nat);
                    lemma_mul_le(n as int, n as int, pow10(j as nat) as int, pow10(k as nat) as int);
                }
                return None;
            }
        }
        Some(x as u64)
    } else {
        let drop = -k;
        if drop >= (int_len as i128) + (frac_len as i128) {
            return Some(0);
        }
        let keep: usize = ((int_len as i128) + (frac_len as i128) - drop) as usize;
        assert(keep == d.len() + k);
        if keep <= int_len {
            assert(d.take(keep as int) =~= Seq::<char>::empty() + v@.subrange(lo as int, lo + keep));
            assert(all_digits(v@.subrange(lo as int, lo + keep))) by {
                assert forall|i: int| 0 <= i < keep implies is_digit(#[trigger] v@.subrange(lo as int, lo + keep)[i]) by {
                    assert(v@.subrange(lo as int, lo + keep)[i] == ip[i]);
                }
            }
            match digits_value_cont(v, lo, lo + keep, Ghost(Seq::<char>::empty()), 0, cap) {
                Some(x) => Some(x as u64),
                None => None,
            }
        } else {
            let rest = keep - int_len;
            assert(d.take(keep as int) =~= ip + v@.subrange(frac_start as int, frac_start + rest));
            assert(all_digits(v@.subrange(frac_start as int, frac_start + rest))) by {
                assert forall|i: int| 0 <= i < rest implies is_digit(#[trigger] v@.subrange(frac_start as int, frac_start + rest)[i]) by {
                    assert(v@.subrange(frac_start as int, frac_start + rest)[i] == fp[i]);
                }
            }
            match digits_value_cont(v, lo, int_end, Ghost(Seq::<char>::empty()), 0, cap) {
                Some(a) => match digits_value_cont(v, frac_start, frac_start + rest, Ghost(ip), a, cap) {
                    Some(x) => Some(x as u64),
                    None => None,
                },
                None => {
                    proof {
                        lemma_digits_value_prefix(d.take(keep as int), ip.len() as int);
                        assert(d.take(keep as int).take(ip.len() as int) =~= ip);
                    }
                    None
                },
            }
        }
    }
}

/// Reads the unsigned decimal number in `v[lo..hi]` as microseconds; `None`
/// when it is not a number or is worth more than 2^63.
fn unsigned_micros_in(v: &Vec<char>, start: usize, hi: usize) -> (r: Option<u64>)
    requires
        start <= hi <= v@.len(),
    ensures
        match r {
            Some(m) => unsigned_micros(v@.subrange(start as int, hi as int)) == Some(m as int)
                && m <= magnitude_limit(),
            None => match unsigned_micros(v@.subrange(start as int, hi as int)) {
                Some(x) => x > magnitude_limit(),
                None => true,
            },
        },
{
    let ghost b = v@.subrange(start as int, hi as int);
    let marker = find_exp_in(v, start, hi);
    proof {
        lemma_find_exp(b);
    }
    let mant_end = match marker {
        Some(p) => p,
        None => hi,
    };
    let ghost m = v@.subrange(start as int, mant_end as int);
    let (exp, exp_negative) = match marker {
        Some(p) => {
            assert(b.take(p - start) =~= m);
            assert(b.skip(p - start + 1) =~= v@.subrange(p + 1, hi as int));
            match exponent_in(v, p + 1, hi) {
                Ok(pair) => pair,
                Err(()) => {
                    return None;
                },
            }
        },
        None => {
            assert(b =~= m);
            (Some(0i128), false)
        },
    };
    let ghost e_spec: int = match marker {
        Some(p) => exponent_value(v@.subrange(p + 1, hi as int)).unwrap(),
        None => 0,
    };
    assert(unsigned_micros(b) == mantissa_micros(m, e_spec));
    let (int_end, frac_start) = mantissa_parts(v, start, mant_end);
    let ghost ip = v@.subrange(start as int, int_end as int);
    let ghost fp = v@.subrange(frac_start as int, mant_end as int);
    proof {
        lemma_find_char(m, '.');
        if find_char(m, '.') is None {
            assert(m =~= ip);
            assert(fp =~= Seq::<char>::empty());
        }
    }
    if !all_digits_in(v, start, int_end) || !all_digits_in(v, frac_start, mant_end) {
        return None;
    }
    if int_end == start && frac_start == mant_end {
        return None;
    }
    let ghost d = ip + fp;
    assert(mantissa_micros(m, e_spec) == Some(scaled_value(d, e_spec + 3 - fp.len()) as int));
    let frac_len = mant_end - frac_start;
    match exp {
        Some(e) => {
            let k: i128 = e + 3 - (frac_len as i128);
            if k < -1_000_000_000_000_000_000_000_000_000_000 {
                assert(-k >= d.len());
                return Some(0);
            }
            assert(e as int == e_spec);
            assert(k as int == e_spec + 3 - fp.len());
            match scaled_in(v, start, int_end, frac_start, mant_end, k) {
                Some(x) => {
                    assert(unsigned_micros(b) == Some(x as int));
                    Some(x)
                },
                None => None,
            }
        },
        None => {
            if exp_negative {
                return Some(0);
            }
            let n = scaled_in(v, start, int_end, frac_start, mant_end, 0);
            match n {
                Some(0) => {
                    proof {
                        assert(pow10(0) == 1);
                        vstd::arithmetic::mul::lemma_mul_basics(digits_value(d) as int);
                        assert(digits_value(d) == 0);
                        vstd::arithmetic::mul::lemma_mul_basics(pow10((e_spec + 3 - fp.len()) as nat) as int);
                    }
                    Some(0)
                },
                _ => {
                    proof {
                        let kk = e_spec + 3 - fp.len();
                        assert(kk > 0);
                        lemma_pow10_above(kk as nat);
                        assert(pow10(0) == 1);
                        vstd::arithmetic::mul::lemma_mul_basics(digits_value(d) as int);
                        assert(scaled_value(d, 0) == digits_value(d));
                        assert(digits_value(d) >= 1);
                        lemma_mul_le(1, digits_value(d) as int, pow10(kk as nat) as int, pow10(kk as nat) as int);
                    }
                    None
                },
            }
        },
    }
}

/// Reads the decimal number of milliseconds in `v[lo..hi]` as microseconds:
/// `Some` exactly when `parse_micros` gives a value that fits an `i64`.
pub fn parse_micros_in(v: &Vec<char>, lo: usize, hi: usize) -> (r: Option<i64>)
    requires
        lo <= hi <= v@.len(),
    ensures
        match parse_micros(v@.subrange(lo as int, hi as int)) {
            Some(x) => if i64::MIN <= x <= i64::MAX {
                r == Some(x as i64)
            } else {
                r is None
            },
            None => r is None,
        },
{
    let ghost s = v@.subrange(lo as int, hi as int);
    let mut start = lo;
    let mut negative = false;
    if lo < hi && v[lo] == '-' {
        negative = true;
        start = lo + 1;
    } else if lo < hi && v[lo] == '+' {
        start = lo + 1;
    }
    let ghost b = v@.subrange(start as int, hi as int);
    assert(start > lo ==> s.drop_first() =~= b);
    assert(start == lo ==> s =~= b);
    let magnitude = match unsigned_micros_in(v, start, hi) {
        Some(m) => m,
        None => {
            return None;
        },
    };
    if negative {
        if magnitude == 9_223_372_036_854_775_808u64 {
            Some(i64::MIN)
        } else {
            Some(-(magnitude as i64))
        }
    } else {
        if magnitude <= 9_223_372_036_854_775_807u64 {
            Some(magnitude as i64)
        } else {
            None
        }
    }
}

/// Digit of a number in `0..10`.
pub open spec fn digit_of(n: int) -> Seq<char> {
    seq![digit_char(n)]
}

/// Decimal text of a timing value in milliseconds, as `f64`'s `Display`
/// writes it: a `-` for negative values, the whole milliseconds, and the
/// fraction without trailing zeros.
pub open spec fn time_text(v: int) -> Seq<char> {
    let m = if v < 0 {
        -v
    } else {
        v
    };
    let whole = m / 1000;
    let f = m % 1000;
    let sign = if v < 0 {
        seq!['-']
    } else {
        Seq::<char>::empty()
    };
    let fraction = if f == 0 {
        Seq::<char>::empty()
    } else if f % 100 == 0 {
        seq!['.'] + digit_of(f / 100)
    } else if f % 10 == 0 {
        seq!['.'] + digit_of(f / 100) + digit_of((f / 10) % 10)
    } else {
        seq!['.'] + digit_of(f / 100) + digit_of((f / 10) % 10) + digit_of(f % 10)
    };
    sign + nat_text(whole as nat) + fraction
}

/// A timing value rounded to whole milliseconds, halves away from zero,
/// written as `f64::round` and `Display` write it (so a small negative
/// value gives `-0`).
pub open spec fn rounded_ms_text(v: int) -> Seq<char> {
    if v < 0 {
        seq!['-'] + nat_text(((-v + 500) / 1000) as nat)
    } else {
        nat_text(((v + 500) / 1000) as nat)
    }
}

/// Magnitude of `v` as a `u64`.
fn magnitude_of(v: i64) -> (m: u64)
    ensures
        m == if v < 0 {
            -v
        } else {
            v as int
        },
{
    if v < 0 {
        (-(v as i128)) as u64
    } else {
        v as u64
    }
}

fn push_digit(out: &mut Vec<char>, d: u64)
    requires
        d < 10,
    ensures
        final(out)@ == old(out)@ + digit_of(d as int),
{
    out.push((48u8 + (d as u8)) as char);
}

/// Appends `time_text(v)` to `out`.
pub fn push_time_text(out: &mut Vec<char>, v: i64)
    ensures
        final(out)@ == old(out)@ + time_text(v as int),
{
    let m = magnitude_of(v);
    let whole = m / 1000;
    let f = m % 1000;
    let ghost start = out@;
    if v < 0 {
        out.push('-');
    }
    push_nat_text(out, whole);
    if f != 0 {
        out.push('.');
        push_digit(out, f / 100);
        if f % 100 != 0 {
            push_digit(out, (f / 10) % 10);
            if f % 10 != 0 {
                push_digit(out, f % 10);
            }
        }
    }
    assert(out@ =~= start + time_text(v as int));
}

/// Appends `rounded_ms_text(v)` to `out`.
pub fn push_rounded_ms_text(out: &mut Vec<char>, v: i64)
    ensures
        final(out)@ == old(out)@ + rounded_ms_text(v as int),
{
    let m = magnitude_of(v);
    let ghost start = out@;
    if v < 0 {
        out.push('-');
    }
    push_nat_text(out, (m + 500) / 1000);
    assert(out@ =~= start + rounded_ms_text(v as int));
}

/// `v` rounded to whole milliseconds (halves away from zero), in microseconds.
pub open spec fn rounded_micros(v: int) -> int {
    if v < 0 {
        -(((-v + 500) / 1000) * 1000)
    } else {
        ((v + 500) / 1000) * 1000
    }
}

/// Decimal text is non-empty, all digits, and spells its number.
pub proof fn lemma_nat_text(n: nat)
    ensures
        nat_text(n).len() >= 1,
        all_digits(nat_text(n)),
        digits_value(nat_text(n)) == n,
    decreases n,
{
    if n >= 10 {
        lemma_nat_text(n / 10);
        let t = nat_text(n / 10).push(digit_char((n % 10) as int));
        assert(t.drop_last() =~= nat_text(n / 10));
        assert(t.last() == digit_char((n % 10) as int));
        assert((t.last() as int) - 48 == n % 10);
        assert(n == (n / 10) * 10 + n % 10);
        assert(nat_text(n) == t);
        assert(digits_value(t) == digits_value(t.drop_last()) * 10 + ((t.last() as int) - 48));
        assert(digits_value(t) == n);
        assert forall|i: int| 0 <= i < t.len() implies is_digit(#[trigger] t[i]) by {
            if i < t.len() - 1 {
                assert(t[i] == nat_text(n / 10)[i]);
            }
        }
    } else {
        assert(seq![digit_char(n as int)].drop_last() =~= Seq::<char>::empty());
        assert((digit_char(n as int) as int) - 48 == n);
        assert(nat_text(n) == seq![digit_char(n as int)]);
        assert(digits_value(Seq::<char>::empty()) == 0);
        assert(digits_value(seq![digit_char(n as int)]) == n);
    }
}

/// A value whose rounding to whole milliseconds still fits an `i64`.
pub open spec fn round_fits(v: int) -> bool {
    i64::MIN <= rounded_micros(v) <= i64::MAX
}

/// The rounded text of a value is a sign and digits; where the rounded
/// value fits an `i64`, it reads back as that value.
pub proof fn lemma_rounded_text_reads_back(v: int)
    ensures
        rounded_ms_text(v).len() >= 1,
        all_digits(rounded_ms_text(v).drop_first()),
        is_digit(rounded_ms_text(v).last()),
        rounded_ms_text(v)[0] == '-' || is_digit(rounded_ms_text(v)[0]),
        forall|i: int|
            0 <= i < rounded_ms_text(v).len() ==> #[trigger] rounded_ms_text(v)[i] == '-'
                || is_digit(rounded_ms_text(v)[i]),
        round_fits(v) ==> field_micros(rounded_ms_text(v)) == rounded_micros(v),
{
    let r: nat = if v < 0 {
        ((-v + 500) / 1000) as nat
    } else {
        ((v + 500) / 1000) as nat
    };
    let t = nat_text(r);
    lemma_nat_text(r);
    lemma_find_char(t, '.');
    if let Some(i) = find_char(t, '.') {
        assert(is_digit(t[i]));
    }
    lemma_find_exp(t);
    if let Some(i) = find_exp(t) {
        assert(is_digit(t[i]));
    }
    assert(t + Seq::<char>::empty() =~= t);
    assert(pow10(3) == 1000) by {
        reveal_with_fuel(pow10, 4);
    }
    assert(unsigned_micros(t) == Some(r * 1000int));
    let s = rounded_ms_text(v);
    if v < 0 {
        assert(s.drop_first() =~= t);
        assert(s.last() == t.last());
    } else {
        assert(s == t);
        assert forall|i: int| 0 <= i < s.drop_first().len() implies is_digit(
            #[trigger] s.drop_first()[i],
        ) by {
            assert(s.drop_first()[i] == t[i + 1]);
        }
    }
    assert(is_digit(t[t.len() - 1]));
    assert(is_digit(t[0]));
    assert forall|i: int| 0 <= i < s.len() implies #[trigger] s[i] == '-' || is_digit(s[i]) by {
        if i > 0 {
            assert(s[i] == s.drop_first()[i - 1]);
        }
    }
    crate::text::lemma_trim_unchanged(s);
}

} // verus!
