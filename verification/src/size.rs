//! Byte counts as text in binary units (`B`, `KiB`, `MiB`, `GiB`, `TiB`),
//! with one decimal where the count is not a whole number of the unit.
//!
//! The count is first taken as the nearest double-precision number (53
//! significant bits, ties to even), then divided by the largest unit below
//! it; a fraction is rounded to tenths, ties to even.

use vstd::prelude::*;
use crate::text::{append, nat_text, u64_text};

verus! {

/// Two to the 53rd: from here on not every whole number is a double.
pub const MANTISSA_LIMIT: u128 = 9007199254740992;

/// The power of two by which `n` is cut down to fewer than 53 bits,
/// starting from `p` and doubling at most `fuel` times.
pub open spec fn f64_unit(n: nat, p: nat, fuel: nat) -> nat
    decreases fuel,
{
    if fuel == 0 || p == 0 || n / p < MANTISSA_LIMIT {
        p
    } else {
        f64_unit(n, p * 2, (fuel - 1) as nat)
    }
}

/// The whole number that `n` becomes as a double: rounded to 53
/// significant bits, ties to even.
pub open spec fn f64_nearest(n: nat) -> nat {
    let p = f64_unit(n, 1, 64);
    let q = n / p;
    let r = n % p;
    let q2 = if r * 2 > p || (r * 2 == p && q % 2 == 1) {
        q + 1
    } else {
        q
    };
    q2 * p
}

/// The size of the `i`-th unit in bytes.
pub open spec fn unit_size(i: nat) -> nat {
    if i == 0 {
        1
    } else if i == 1 {
        1024
    } else if i == 2 {
        1048576
    } else if i == 3 {
        1073741824
    } else {
        1099511627776
    }
}

/// The name of the `i`-th unit.
pub open spec fn unit_name(i: nat) -> Seq<char> {
    if i == 0 {
        "B"@
    } else if i == 1 {
        "KiB"@
    } else if i == 2 {
        "MiB"@
    } else if i == 3 {
        "GiB"@
    } else {
        "TiB"@
    }
}

/// The unit a size is written in: the largest one that leaves fewer than
/// 1024 of it, or `TiB`.
pub open spec fn unit_index(v: nat) -> nat {
    if v < 1024 {
        0
    } else if v < 1048576 {
        1
    } else if v < 1073741824 {
        2
    } else if v < 1099511627776 {
        3
    } else {
        4
    }
}

/// `v / d` in tenths, rounded to the nearest, ties to even.
pub open spec fn tenths(v: nat, d: nat) -> nat {
    let t = v * 10 / d;
    let r = v * 10 % d;
    if r * 2 > d || (r * 2 == d && t % 2 == 1) {
        t + 1
    } else {
        t
    }
}

/// The text of a byte count.
pub open spec fn bytes_text(size: nat) -> Seq<char> {
    let v = f64_nearest(size);
    let i = unit_index(v);
    let d = unit_size(i);
    if v % d == 0 {
        nat_text(v / d) + " "@ + unit_name(i)
    } else {
        let t = tenths(v, d);
        nat_text(t / 10) + "."@ + nat_text(t % 10) + " "@ + unit_name(i)
    }
}

proof fn lemma_div_le(n: nat, p: nat)
    requires
        p >= 1,
        n / p >= 1,
    ensures
        p <= n,
{
    assert(p <= n) by (nonlinear_arith)
        requires
            p >= 1,
            n / p >= 1,
    ;
}

proof fn lemma_div_mul_le(n: nat, p: nat)
    requires
        p >= 1,
    ensures
        (n / p) * p <= n,
        (n / p + 1) * p <= n + p,
{
    assert((n / p) * p <= n) by (nonlinear_arith)
        requires
            p >= 1,
    ;
    assert((n / p + 1) * p == (n / p) * p + p) by (nonlinear_arith);
}

/// The whole number a count becomes as a double.
fn nearest_double(n: u64) -> (r: u128)
    ensures
        r as nat == f64_nearest(n as nat),
        r <= 2 * (n as nat) + 1,
{
    let ghost nn = n as nat;
    let v = n as u128;
    let mut p: u128 = 1;
    let mut fuel: u32 = 64;
    while fuel > 0 && v / p >= MANTISSA_LIMIT
        invariant
            1 <= p <= 2 * v + 1,
            v == nn,
            v <= 18446744073709551615u128,
            fuel <= 64,
            f64_unit(nn, 1, 64) == f64_unit(nn, p as nat, fuel as nat),
        decreases fuel,
    {
        proof {
            lemma_div_le(v as nat, p as nat);
        }
        p = p * 2;
        fuel = fuel - 1;
    }
    let q = v / p;
    let r = v % p;
    proof {
        lemma_div_mul_le(v as nat, p as nat);
        assert(r < p);
    }
    let q2 = if r * 2 > p || (r * 2 == p && q % 2 == 1) {
        q + 1
    } else {
        q
    };
    proof {
        if p <= v {
            assert(q2 * p <= v + p) by (nonlinear_arith)
                requires
                    q2 <= q + 1,
                    q == v / p,
                    (v / p + 1) * p <= v + p,
                    p >= 1,
            ;
        } else {
            assert(q == 0) by (nonlinear_arith)
                requires
                    q == v / p,
                    v < p,
            ;
            assert(q2 * p <= p) by (nonlinear_arith)
                requires
                    q2 <= 1,
                    p >= 1,
            ;
        }
    }
    q2 * p
}

/// `v / d` and its rest, written as text in the given unit.
fn scaled_text(v: u128, d: u128, unit: &str) -> (r: String)
    requires
        1 <= d <= 1099511627776,
        v <= 2 * 18446744073709551615u128 + 1,
        v / d < 18446744073709551615u128,
    ensures
        r@ == (if v % d == 0 {
            nat_text((v / d) as nat) + " "@ + unit@
        } else {
            nat_text(tenths(v as nat, d as nat) / 10) + "."@ + nat_text(tenths(v as nat, d as nat) % 10)
                + " "@ + unit@
        }),
{
    if v % d == 0 {
        let mut t = u64_text((v / d) as u64);
        append(&mut t, " ");
        append(&mut t, unit);
        t
    } else {
        let t0 = v * 10 / d;
        let rest = v * 10 % d;
        let t1 = if rest * 2 > d || (rest * 2 == d && t0 % 2 == 1) {
            t0 + 1
        } else {
            t0
        };
        proof {
            let vi = v as int;
            let di = d as int;
            assert((vi * 10) / di <= (vi / di) * 10 + 9) by (nonlinear_arith)
                requires
                    di >= 1,
                    vi >= 0,
            ;
        }
        let mut t = u64_text((t1 / 10) as u64);
        append(&mut t, ".");
        let digit = u64_text((t1 % 10) as u64);
        append(&mut t, digit.as_str());
        append(&mut t, " ");
        append(&mut t, unit);
        t
    }
}

/// A byte count as text in binary units, such as `64 KiB` or `1.5 MiB`.
pub fn format_bytes(size: usize) -> (r: String)
    ensures
        r@ == bytes_text(size as nat),
{
    let v = nearest_double(size as u64);
    proof {
        reveal_strlit("B");
    }
    if v < 1024 {
        scaled_text(v, 1, "B")
    } else if v < 1048576 {
        scaled_text(v, 1024, "KiB")
    } else if v < 1073741824 {
        scaled_text(v, 1048576, "MiB")
    } else if v < 1099511627776 {
        scaled_text(v, 1073741824, "GiB")
    } else {
        scaled_text(v, 1099511627776, "TiB")
    }
}

} // verus!
