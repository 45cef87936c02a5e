//! Expiry times given as decimal text, read as whole nanoseconds.
//!
//! The text follows the grammar of a Rust floating-point literal: an optional
//! sign, digits with an optional fraction, and an optional exponent. Its
//! value is taken exactly and cut down to whole nanoseconds.

use vstd::prelude::*;
use crate::text::{chars_of, digit_char, nat_text};

verus! {

/// Expiry times from this many nanoseconds on lie past what the clock can
/// add (2^63 - 2^32 seconds).
pub const TTL_LIMIT_NS: u128 = 9223372032559808512000000000;

/// Nanoseconds per second and per millisecond, as powers of ten.
pub const SECONDS_SCALE: u8 = 9;

pub const MILLIS_SCALE: u8 = 6;

/// Ten to the given power.
pub open spec fn pow10(n: nat) -> nat
    decreases n,
{
    if n == 0 {
        1
    } else {
        10 * pow10((n - 1) as nat)
    }
}

pub open spec fn is_digit(c: char) -> bool {
    '0' <= c && c <= '9'
}

pub open spec fn digit_value(c: char) -> nat {
    (c as int - 48) as nat
}

/// The number that a run of decimal digits writes.
pub open spec fn digits_value(ds: Seq<char>) -> nat
    decreases ds.len(),
{
    if ds.len() == 0 {
        0
    } else {
        digits_value(ds.drop_last()) * 10 + digit_value(ds.last())
    }
}

/// The end of the run of digits that starts at position `i`.
pub open spec fn digit_run_end(t: Seq<char>, i: int) -> int
    decreases t.len() - i,
{
    if 0 <= i < t.len() && is_digit(t[i]) {
        digit_run_end(t, i + 1)
    } else {
        i
    }
}

/// The parts of a decimal literal: whether it is negative, its digits
/// (integer then fraction), the number of fraction digits, and its
/// exponent.
pub struct Decimal {
    pub negative: bool,
    pub digits: Seq<char>,
    pub frac_len: int,
    pub exponent: int,
}

/// Reads a decimal literal; `None` where the text is not one.
pub open spec fn scan_decimal(t: Seq<char>) -> Option<Decimal> {
    let i0: int = if t.len() > 0 && (t[0] == '+' || t[0] == '-') {
        1
    } else {
        0
    };
    let i1 = digit_run_end(t, i0);
    let has_dot = i1 < t.len() && t[i1] == '.';
    let i2 = if has_dot {
        i1 + 1
    } else {
        i1
    };
    let i3 = if has_dot {
        digit_run_end(t, i2)
    } else {
        i2
    };
    let digits = t.subrange(i0, i1) + t.subrange(i2, i3);
    let negative = t.len() > 0 && t[0] == '-';
    if digits.len() == 0 {
        None
    } else if i3 == t.len() {
        Some(Decimal { negative, digits, frac_len: i3 - i2, exponent: 0 })
    } else if t[i3] == 'e' || t[i3] == 'E' {
        let i4 = i3 + 1;
        let eneg = i4 < t.len() && t[i4] == '-';
        let i5 = if i4 < t.len() && (t[i4] == '+' || t[i4] == '-') {
            i4 + 1
        } else {
            i4
        };
        let i6 = digit_run_end(t, i5);
        if i6 == i5 || i6 != t.len() {
            None
        } else {
            let e = digits_value(t.subrange(i5, i6)) as int;
            Some(
                Decimal { negative, digits, frac_len: i3 - i2, exponent: if eneg {
                    -e
                } else {
                    e
                } },
            )
        }
    } else {
        None
    }
}

/// The whole nanoseconds that a decimal literal stands for, with `scale`
/// the power of ten of nanoseconds in its unit; `None` where the text is not
/// a literal, or is below zero.
pub open spec fn ttl_nanos(t: Seq<char>, scale: nat) -> Option<nat> {
    match scan_decimal(t) {
        None => None,
        Some(d) => {
            let m = digits_value(d.digits);
            if d.negative && m != 0 {
                None
            } else {
                let k = d.exponent - d.frac_len + scale;
                Some(
                    if k >= 0 {
                        m * pow10(k as nat)
                    } else {
                        m / pow10((-k) as nat)
                    },
                )
            }
        }
    }
}

/// The outcome of reading an expiry time.
pub enum Ttl {
    /// The text is not a non-negative decimal literal.
    Invalid,
    /// The time is at least `TTL_LIMIT_NS`.
    TooLarge,
    /// The time in nanoseconds.
    Nanos(u128),
}

/// What reading an expiry time gives.
pub open spec fn spec_ttl(t: Seq<char>, scale: nat) -> Ttl {
    match ttl_nanos(t, scale) {
        None => Ttl::Invalid,
        Some(n) => if n >= TTL_LIMIT_NS {
            Ttl::TooLarge
        } else {
            Ttl::Nanos(n as u128)
        },
    }
}

proof fn lemma_pow10_positive(n: nat)
    ensures
        pow10(n) >= 1,
    decreases n,
{
    if n > 0 {
        lemma_pow10_positive((n - 1) as nat);
    }
}

proof fn lemma_pow10_monotone(a: nat, b: nat)
    requires
        a <= b,
    ensures
        pow10(a) <= pow10(b),
    decreases b,
{
    if a < b {
        lemma_pow10_monotone(a, (b - 1) as nat);
        lemma_pow10_positive((b - 1) as nat);
    }
}

proof fn lemma_digits_bound(ds: Seq<char>)
    requires
        forall|i: int| 0 <= i < ds.len() ==> is_digit(#[trigger] ds[i]),
    ensures
        digits_value(ds) < pow10(ds.len()),
    decreases ds.len(),
{
    if ds.len() > 0 {
        let p = ds.drop_last();
        assert forall|i: int| 0 <= i < p.len() implies is_digit(#[trigger] p[i]) by {
            assert(p[i] == ds[i]);
        }
        lemma_digits_bound(p);
        assert(is_digit(ds.last()));
        let v = digits_value(p);
        let q = pow10(p.len());
        assert(v * 10 + digit_value(ds.last()) < q * 10) by (nonlinear_arith)
            requires
                v < q,
                digit_value(ds.last()) < 10,
        ;
    }
}

/// Splitting a run of digits: the value is the prefix's value shifted left
/// by the suffix's length, plus the suffix's value.
proof fn lemma_digits_split(ds: Seq<char>, j: int)
    requires
        0 <= j <= ds.len(),
    ensures
        digits_value(ds) == digits_value(ds.subrange(0, j)) * pow10((ds.len() - j) as nat)
            + digits_value(ds.subrange(j, ds.len() as int)),
    decreases ds.len(),
{
    if j == ds.len() {
        assert(ds.subrange(0, j) =~= ds);
        assert(ds.subrange(j, ds.len() as int) =~= Seq::<char>::empty());
        assert(digits_value(Seq::<char>::empty()) == 0);
        assert(pow10(0) == 1);
        assert(digits_value(ds) * pow10(0) == digits_value(ds));
    } else {
        let p = ds.drop_last();
        lemma_digits_split(p, j);
        assert(p.subrange(0, j) =~= ds.subrange(0, j));
        let s = ds.subrange(j, ds.len() as int);
        assert(s.drop_last() =~= p.subrange(j, p.len() as int));
        assert(s.last() == ds.last());
        let a = digits_value(ds.subrange(0, j));
        let n = (p.len() - j) as nat;
        let b = digits_value(p.subrange(j, p.len() as int));
        assert(digits_value(ds) == digits_value(p) * 10 + digit_value(ds.last()));
        assert(digits_value(s) == digits_value(s.drop_last()) * 10 + digit_value(s.last()));
        assert(digits_value(p) == a * pow10(n) + b);
        assert(pow10((ds.len() - j) as nat) == 10 * pow10(n));
        assert(digits_value(s) == b * 10 + digit_value(ds.last()));
        assert((a * pow10(n) + b) * 10 + digit_value(ds.last()) == a * (10 * pow10(n)) + (b * 10
            + digit_value(ds.last()))) by (nonlinear_arith);
    }
}

/// Dividing a run of digits by a power of ten keeps its leading digits.
proof fn lemma_digits_div(ds: Seq<char>, d: nat)
    requires
        forall|i: int| 0 <= i < ds.len() ==> is_digit(#[trigger] ds[i]),
        d <= ds.len(),
    ensures
        digits_value(ds) / pow10(d) == digits_value(ds.subrange(0, ds.len() - d)),
{
    let j = ds.len() - d;
    lemma_digits_split(ds, j);
    let s = ds.subrange(j, ds.len() as int);
    assert forall|i: int| 0 <= i < s.len() implies is_digit(#[trigger] s[i]) by {
        assert(s[i] == ds[j + i]);
    }
    lemma_digits_bound(s);
    assert(s.len() == d);
    lemma_pow10_positive(d);
    let a = digits_value(ds.subrange(0, j));
    let b = digits_value(s);
    let q = pow10(d);
    assert((a * q + b) / q == a) by (nonlinear_arith)
        requires
            0 <= b < q,
            0 <= a,
    ;
}

/// The exponent digits are read up to this bound; larger exponents all
/// lead to the same outcome.
const EXP_CAP: u128 = 1180591620717411303424;

/// The digits value, saturated at `cap`.
pub open spec fn capped(v: nat, cap: nat) -> nat {
    if v >= cap {
        cap
    } else {
        v
    }
}

fn digit_run(t: &Vec<char>, i: usize) -> (r: usize)
    requires
        i <= t@.len(),
    ensures
        r == digit_run_end(t@, i as int),
        i <= r <= t@.len(),
        forall|k: int| i <= k < r ==> is_digit(#[trigger] t@[k]),
{
    let mut j = i;
    while j < t.len() && '0' <= t[j] && t[j] <= '9'
        invariant
            i <= j <= t@.len(),
            digit_run_end(t@, i as int) == digit_run_end(t@, j as int),
            forall|k: int| i <= k < j ==> is_digit(#[trigger] t@[k]),
        decreases t@.len() - j,
    {
        j = j + 1;
    }
    j
}

/// The value of the digits `t[from..to]`, saturated at `cap`.
fn capped_value(t: &Vec<char>, from: usize, to: usize, cap: u128) -> (r: u128)
    requires
        from <= to <= t@.len(),
        forall|k: int| from <= k < to ==> is_digit(#[trigger] t@[k]),
        cap < 0x1000_0000_0000_0000_0000_0000_0000_0000,
    ensures
        r == capped(digits_value(t@.subrange(from as int, to as int)), cap as nat),
{
    let mut acc: u128 = 0;
    let mut i = from;
    assert(t@.subrange(from as int, from as int) =~= Seq::<char>::empty());
    while i < to
        invariant
            from <= i <= to <= t@.len(),
            forall|k: int| from <= k < to ==> is_digit(#[trigger] t@[k]),
            cap < 0x1000_0000_0000_0000_0000_0000_0000_0000,
            acc == capped(digits_value(t@.subrange(from as int, i as int)), cap as nat),
        decreases to - i,
    {
        let ghost before = digits_value(t@.subrange(from as int, i as int));
        assert(is_digit(t@[i as int]));
        let d = (t[i] as u32 - 48) as u128;
        assert(t@.subrange(from as int, i + 1).drop_last() =~= t@.subrange(from as int, i as int));
        if acc >= cap {
            acc = cap;
            assert(before * 10 + d >= cap) by (nonlinear_arith)
                requires
                    before >= cap,
                    d >= 0,
            ;
        } else {
            let next = acc * 10 + d;
            if next >= cap {
                acc = cap;
            } else {
                acc = next;
            }
        }
        i = i + 1;
    }
    acc
}

/// The parts of a literal as the reader found them.
struct Scanned {
    digits: Vec<char>,
    negative: bool,
    frac_len: usize,
    exp_negative: bool,
    exp_value: u128,
}

fn scan(t: &Vec<char>) -> (r: Option<Scanned>)
    ensures
        r is Some <==> scan_decimal(t@) is Some,
        r matches Some(sc) ==> {
            let dec = scan_decimal(t@)->Some_0;
            &&& sc.digits@ == dec.digits
            &&& sc.negative == dec.negative
            &&& sc.frac_len == dec.frac_len
            &&& sc.exp_value == capped(
                if dec.exponent < 0 {
                    (-dec.exponent) as nat
                } else {
                    dec.exponent as nat
                },
                EXP_CAP as nat,
            )
            &&& sc.exp_negative ==> dec.exponent <= 0
            &&& !sc.exp_negative ==> dec.exponent >= 0
            &&& forall|i: int| 0 <= i < sc.digits@.len() ==> is_digit(#[trigger] sc.digits@[i])
            &&& sc.digits@.len() <= t@.len()
        },
{
    let n = t.len();
    let i0: usize = if n > 0 && (t[0] == '+' || t[0] == '-') {
        1
    } else {
        0
    };
    let negative = n > 0 && t[0] == '-';
    let i1 = digit_run(t, i0);
    let has_dot = i1 < n && t[i1] == '.';
    let i2 = if has_dot {
        i1 + 1
    } else {
        i1
    };
    let i3 = if has_dot {
        digit_run(t, i2)
    } else {
        i2
    };
    let ghost digits = t@.subrange(i0 as int, i1 as int) + t@.subrange(i2 as int, i3 as int);
    if (i1 - i0) + (i3 - i2) == 0 {
        assert(digits.len() == 0);
        return None;
    }
    let mut exp_negative = false;
    let mut exp_value: u128 = 0;
    if i3 < n {
        if !(t[i3] == 'e' || t[i3] == 'E') {
            return None;
        }
        let i4 = i3 + 1;
        exp_negative = i4 < n && t[i4] == '-';
        let i5 = if i4 < n && (t[i4] == '+' || t[i4] == '-') {
            i4 + 1
        } else {
            i4
        };
        let i6 = digit_run(t, i5);
        if i6 == i5 || i6 != n {
            return None;
        }
        exp_value = capped_value(t, i5, i6, EXP_CAP);
    }
    let mut ds: Vec<char> = Vec::new();
    let mut k = i0;
    while k < i1
        invariant
            i0 <= k <= i1 <= t@.len(),
            ds@ == t@.subrange(i0 as int, k as int),
        decreases i1 - k,
    {
        ds.push(t[k]);
        assert(t@.subrange(i0 as int, k + 1) =~= t@.subrange(i0 as int, k as int).push(
            t@[k as int],
        ));
        k = k + 1;
    }
    let mut k = i2;
    while k < i3
        invariant
            i2 <= k <= i3 <= t@.len(),
            i0 <= i1 <= i2,
            ds@ == t@.subrange(i0 as int, i1 as int) + t@.subrange(i2 as int, k as int),
        decreases i3 - k,
    {
        ds.push(t[k]);
        assert(t@.subrange(i2 as int, k + 1) =~= t@.subrange(i2 as int, k as int).push(
            t@[k as int],
        ));
        k = k + 1;
    }
    assert(ds@ =~= digits);
    assert forall|i: int| 0 <= i < ds@.len() implies is_digit(#[trigger] ds@[i]) by {
        if i < i1 - i0 {
            assert(ds@[i] == t@[i0 + i]);
        } else {
            assert(ds@[i] == t@[i2 + (i - (i1 - i0))]);
        }
    }
    Some(Scanned { digits: ds, negative, frac_len: i3 - i2, exp_negative, exp_value })
}

fn scale_up(m: u128, k: i128, Ghost(mv): Ghost<nat>) -> (r: Ttl)
    requires
        0 <= k < 28,
        m == mv,
        1 <= mv < TTL_LIMIT_NS,
    ensures
        r == (if mv * pow10(k as nat) >= TTL_LIMIT_NS {
            Ttl::TooLarge
        } else {
            Ttl::Nanos((mv * pow10(k as nat)) as u128)
        }),
{
    let mut v = m;
    let mut i: i128 = 0;
    assert(pow10(0) == 1);
    assert(v == mv * pow10(0));
    while i < k
        invariant
            0 <= i <= k < 28,
            1 <= mv,
            v < TTL_LIMIT_NS,
            v == mv * pow10(i as nat),
        decreases k - i,
    {
        let next = v * 10;
        assert(next == mv * pow10((i + 1) as nat)) by (nonlinear_arith)
            requires
                next == v * 10,
                v == mv * pow10(i as nat),
                pow10((i + 1) as nat) == 10 * pow10(i as nat),
        ;
        if next >= TTL_LIMIT_NS {
            proof {
                lemma_pow10_monotone((i + 1) as nat, k as nat);
                assert(mv * pow10(k as nat) >= mv * pow10((i + 1) as nat)) by (nonlinear_arith)
                    requires
                        pow10(k as nat) >= pow10((i + 1) as nat),
                        mv >= 1,
                ;
            }
            return Ttl::TooLarge;
        }
        v = next;
        i = i + 1;
    }
    Ttl::Nanos(v)
}

/// The outcome for a literal with a non-zero, non-negative mantissa.
#[verifier::spinoff_prover]
#[verifier::rlimit(40)]
fn nanos_of(sc: &Scanned, scale: u8, Ghost(dec): Ghost<Decimal>, Ghost(tlen): Ghost<nat>) -> (r: Ttl)
    requires
        scale <= 9,
        sc.digits@ == dec.digits,
        sc.frac_len == dec.frac_len,
        sc.exp_value == capped(
            if dec.exponent < 0 {
                (-dec.exponent) as nat
            } else {
                dec.exponent as nat
            },
            EXP_CAP as nat,
        ),
        sc.exp_negative ==> dec.exponent <= 0,
        !sc.exp_negative ==> dec.exponent >= 0,
        forall|i: int| 0 <= i < sc.digits@.len() ==> is_digit(#[trigger] sc.digits@[i]),
        sc.digits@.len() <= tlen,
        tlen < 0x1_0000_0000_0000_0000,
        digits_value(dec.digits) >= 1,
    ensures
        ({
            let m = digits_value(dec.digits);
            let k = dec.exponent - dec.frac_len + scale;
            let n = if k >= 0 {
                m * pow10(k as nat)
            } else {
                m / pow10((-k) as nat)
            };
            r == if n >= TTL_LIMIT_NS {
                Ttl::TooLarge
            } else {
                Ttl::Nanos(n as u128)
            }
        }),
{
    let ds = &sc.digits;
    let len = ds.len();
    let ghost m = digits_value(dec.digits);
    let ghost k: int = dec.exponent - dec.frac_len + scale;
    let frac = sc.frac_len as i128;
    let e_sat: i128 = if sc.exp_negative {
        -(sc.exp_value as i128)
    } else {
        sc.exp_value as i128
    };
    let k_exec: i128 = e_sat - frac + scale as i128;
    proof {
        lemma_digits_bound(dec.digits);
        if sc.exp_value < EXP_CAP {
            assert(k_exec == k);
        } else if sc.exp_negative {
            assert(k <= k_exec);
        } else {
            assert(k >= k_exec);
        }
    }
    if k_exec >= 28 {
        proof {
            assert(k >= 28);
            lemma_pow10_monotone(28, k as nat);
            assert(pow10(28) == 10000000000000000000000000000nat) by {
                reveal_with_fuel(pow10, 30);
            }
            assert(m * pow10(k as nat) >= pow10(k as nat)) by (nonlinear_arith)
                requires
                    m >= 1,
            ;
        }
        return Ttl::TooLarge;
    }
    if k_exec >= 0 {
        assert(k_exec == k);
        let v = capped_value(ds, 0, len, TTL_LIMIT_NS);
        assert(ds@.subrange(0, len as int) =~= ds@);
        if v >= TTL_LIMIT_NS {
            proof {
                lemma_pow10_positive(k as nat);
                assert(m * pow10(k as nat) >= m) by (nonlinear_arith)
                    requires
                        pow10(k as nat) >= 1,
                ;
            }
            return Ttl::TooLarge;
        }
        return scale_up(v, k_exec, Ghost(m));
    }
    let d: u128 = (-k_exec) as u128;
    if d >= len as u128 {
        proof {
            let dk = (-k) as nat;
            assert(dk >= len);
            lemma_pow10_monotone(len as nat, dk);
            assert(m / pow10(dk) == 0) by (nonlinear_arith)
                requires
                    m < pow10(len as nat),
                    pow10(len as nat) <= pow10(dk),
            ;
        }
        return Ttl::Nanos(0);
    }
    assert(k_exec == k);
    let keep = len - d as usize;
    let v = capped_value(ds, 0, keep, TTL_LIMIT_NS);
    proof {
        lemma_digits_div(dec.digits, d as nat);
    }
    if v >= TTL_LIMIT_NS {
        return Ttl::TooLarge;
    }
    Ttl::Nanos(v)
}

/// Reads an expiry time from text; `scale` is the power of ten of
/// nanoseconds in its unit (9 for seconds, 6 for milliseconds).
pub fn parse_ttl(text: &str, scale: u8) -> (r: Ttl)
    requires
        scale <= 9,
    ensures
        r == spec_ttl(text@, scale as nat),
{
    let t = chars_of(text);
    let sc = match scan(&t) {
        Some(sc) => sc,
        None => return Ttl::Invalid,
    };
    let ghost dec = scan_decimal(t@)->Some_0;
    let len = sc.digits.len();
    let m_small = capped_value(&sc.digits, 0, len, 1);
    assert(sc.digits@.subrange(0, len as int) =~= sc.digits@);
    let ghost m = digits_value(dec.digits);
    if m_small == 0 {
        assert(m == 0);
        proof {
            let kk = dec.exponent - dec.frac_len + scale;
            if kk < 0 {
                lemma_pow10_positive((-kk) as nat);
                assert(0nat / pow10((-kk) as nat) == 0) by (nonlinear_arith)
                    requires
                        pow10((-kk) as nat) >= 1,
                ;
            }
        }
        return Ttl::Nanos(0);
    }
    if sc.negative {
        return Ttl::Invalid;
    }
    nanos_of(&sc, scale, Ghost(dec), Ghost(t@.len()))
}

proof fn lemma_nat_text_digits(n: nat)
    ensures
        nat_text(n).len() > 0,
        forall|i: int| 0 <= i < nat_text(n).len() ==> is_digit(#[trigger] nat_text(n)[i]),
        digits_value(nat_text(n)) == n,
    decreases n,
{
    let t = nat_text(n);
    if n < 10 {
        assert(digit_char(n) as int == 48 + n);
        assert(t.last() == digit_char(n));
        assert(digit_value(t.last()) == n);
        assert(t.drop_last() =~= Seq::<char>::empty());
        assert(digits_value(t) == digits_value(t.drop_last()) * 10 + digit_value(t.last()));
    } else {
        lemma_nat_text_digits(n / 10);
        let p = nat_text(n / 10);
        let c = digit_char(n % 10);
        assert(c as int == 48 + n % 10);
        assert(t == p.push(c));
        assert(t.drop_last() =~= p);
        assert(t.last() == c);
        assert(digit_value(c) == n % 10);
        assert(digits_value(t) == digits_value(p) * 10 + digit_value(c));
        assert forall|i: int| 0 <= i < t.len() implies is_digit(#[trigger] t[i]) by {
            if i < p.len() {
                assert(t[i] == p[i]);
            }
        }
    }
}

proof fn lemma_digit_run_to_end(t: Seq<char>, i: int)
    requires
        0 <= i <= t.len(),
        forall|j: int| 0 <= j < t.len() ==> is_digit(#[trigger] t[j]),
    ensures
        digit_run_end(t, i) == t.len(),
    decreases t.len() - i,
{
    if i < t.len() {
        lemma_digit_run_to_end(t, i + 1);
    }
}

/// An expiry given as the decimal text of a whole number `n` of units
/// lasts exactly `n` units: `n` times ten to the `scale` nanoseconds.
pub proof fn law_ttl_whole_numbers(n: nat, scale: nat)
    requires
        n * pow10(scale) < TTL_LIMIT_NS,
    ensures
        spec_ttl(nat_text(n), scale) == Ttl::Nanos((n * pow10(scale)) as u128),
{
    let t = nat_text(n);
    lemma_nat_text_digits(n);
    lemma_digit_run_to_end(t, 0);
    assert(t[0] != '-' && t[0] != '+') by {
        assert(is_digit(t[0]));
    }
    assert(t.subrange(0, t.len() as int) + t.subrange(t.len() as int, t.len() as int) =~= t);
    assert(scan_decimal(t) == Some(Decimal { negative: false, digits: t, frac_len: 0, exponent: 0 }));
}

} // verus!
