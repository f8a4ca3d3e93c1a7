//! Single-precision numbers, computed with whole numbers.
//!
//! A single-precision number has twenty-four significant bits. Every sum, product and quotient is
//! rounded to the nearest of them, and to the even one of two. Numbers with a fraction stand in
//! units of 2^-52 here, which are fine enough for all that is computed with them.

use vstd::prelude::*;

verus! {

/// How many units make one.
pub const UNIT: i128 = 0x10_0000_0000_0000;

/// The distance between neighbouring single-precision numbers of the magnitude `a`: one where
/// twenty-four bits hold `a`, and twice as much with every further bit.
pub open spec fn step(a: nat) -> nat
    decreases a,
{
    if a < 0x100_0000 {
        1
    } else {
        2 * step(a / 2)
    }
}

/// The whole number nearest to `n / d`; of two the even one.
pub open spec fn nearest(n: nat, d: nat) -> nat {
    if 2 * (n % d) < d || (2 * (n % d) == d && (n / d) % 2 == 0) {
        n / d
    } else {
        n / d + 1
    }
}

/// The single-precision number nearest to `n / d`, where neither is negative.
pub open spec fn magnitude(n: nat, d: nat) -> nat {
    let p = step(n / d);
    nearest(n, d * p) * p
}

/// The single-precision number nearest to `n / d`.
pub open spec fn single(n: int, d: nat) -> int {
    if n >= 0 {
        magnitude(n as nat, d) as int
    } else {
        -(magnitude((-n) as nat, d) as int)
    }
}

/// The number between `a` and `b`, `t` of the way from the first to the second.
pub open spec fn between(a: int, b: int, t: int) -> int {
    single(a + single(single(b - a, 1) * t, UNIT as nat), 1)
}

/// The whole number nearest to a number of units; halves go away from zero.
pub open spec fn whole(v: int) -> int {
    if v >= 0 {
        (2 * v + UNIT) / (2 * UNIT)
    } else {
        -((-2 * v + UNIT) / (2 * UNIT))
    }
}

proof fn lemma_step(a: nat)
    ensures
        step(a) >= 1,
        step(a) == 1 || 0x80_0000 * step(a) <= a,
        a < 0x100_0000 * step(a),
    decreases a,
{
    if a >= 0x100_0000 {
        lemma_step(a / 2);
    }
}

proof fn lemma_nearest(n: nat, d: nat)
    requires
        d > 0,
    ensures
        -(d as int) <= 2 * (nearest(n, d) * d - n) <= d,
{
    let q = n / d;
    assert(n == q * d + n % d) by (nonlinear_arith)
        requires
            d > 0,
            q == n / d,
    ;
    assert((q + 1) * d == q * d + d) by (nonlinear_arith);
    vstd::arithmetic::div_mod::lemma_mod_bound(n as int, d as int);
}

proof fn lemma_magnitude(n: nat, d: nat, most: nat)
    requires
        d > 0,
        most >= 0x80_0000,
        n <= d * most,
    ensures
        -(d * most) <= 0x100_0000 * (magnitude(n, d) * d - n) <= d * most,
{
    let p = step(n / d);
    lemma_step(n / d);
    let m = d * p;
    assert(m > 0) by (nonlinear_arith)
        requires
            d > 0,
            p >= 1,
            m == d * p,
    ;
    lemma_nearest(n, m);
    let q = nearest(n, m);
    assert(q * m == q * p * d) by (nonlinear_arith)
        requires
            m == d * p,
    ;
    assert(0x80_0000 * m <= d * most) by {
        if p == 1 {
            assert(m == d) by (nonlinear_arith)
                requires
                    m == d * p,
                    p == 1,
            ;
            assert(0x80_0000 * d <= d * most) by (nonlinear_arith)
                requires
                    most >= 0x80_0000,
            ;
        } else {
            assert(0x80_0000 * m <= n) by (nonlinear_arith)
                requires
                    0x80_0000 * p <= n / d,
                    m == d * p,
                    d > 0,
            ;
        }
    }
}

/// Rounding moves a number by no more than one part in 2^24, where that is at least half a unit.
pub proof fn rounding_is_small(n: int, d: nat, most: nat)
    requires
        d > 0,
        most >= 0x80_0000,
        -(d * most) <= n <= d * most,
    ensures
        -(d * most) <= 0x100_0000 * (single(n, d) * d - n) <= d * most,
{
    if n >= 0 {
        lemma_magnitude(n as nat, d, most);
    } else {
        lemma_magnitude((-n) as nat, d, most);
        let m = magnitude((-n) as nat, d);
        assert(-m * d == -(m * d)) by (nonlinear_arith);
    }
}

/// Rounding keeps the sign of a number.
pub proof fn rounding_keeps_the_sign(n: int, d: nat)
    requires
        d > 0,
    ensures
        n >= 0 ==> single(n, d) >= 0,
        n <= 0 ==> single(n, d) <= 0,
{
    if n == 0 {
        let p = step(0);
        lemma_step(0);
        assert(d * p > 0) by (nonlinear_arith)
            requires
                d > 0,
                p >= 1,
        ;
        vstd::arithmetic::div_mod::lemma_small_mod(0, d * p);
        vstd::arithmetic::div_mod::lemma_basic_div(0, d as int);
        vstd::arithmetic::div_mod::lemma_basic_div(0, (d * p) as int);
        assert(nearest(0, d * p) == 0);
    }
}

/// What twenty-four bits hold is kept as it is.
pub proof fn short_numbers_are_kept(n: int)
    requires
        -0x100_0000 < n < 0x100_0000,
    ensures
        single(n, 1) == n,
{
    let m = if n >= 0 {
        n as nat
    } else {
        (-n) as nat
    };
    assert(m / 1 == m && m % 1 == 0);
    assert(step(m / 1) == 1);
    assert(magnitude(m, 1) == m);
}

/// The greatest number that is rounded here.
pub const MOST: u128 = 0x0100_0000_0000_0000_0000_0000_0000_0000;

/// The single-precision number nearest to `n / d`, where neither is negative.
fn round_magnitude(n: u128, d: u128) -> (r: u128)
    requires
        0 < d <= MOST,
        n <= MOST,
    ensures
        r == magnitude(n as nat, d as nat),
        r <= 2 * MOST,
{
    let mut a: u128 = n / d;
    let mut p: u128 = 1;
    let ghost all = (n / d) as nat;
    while a >= 0x100_0000
        invariant
            all == n as nat / d as nat,
            step(all) == p * step(a as nat),
            1 <= p,
            p * a <= all <= MOST,
        decreases a,
    {
        assert(p * (2 * step(a as nat / 2)) == (2 * p) * step(a as nat / 2)) by (nonlinear_arith);
        assert((2 * p) * (a / 2) <= p * a) by (nonlinear_arith)
            requires
                2 * (a / 2) <= a,
                p >= 1,
        ;
        assert(2 * p <= p * a) by (nonlinear_arith)
            requires
                a >= 2,
                p >= 1,
        ;
        a = a / 2;
        p = p * 2;
    }
    proof {
        assert(p * 1 == p);
        lemma_step(all);
        assert(d * p <= MOST) by (nonlinear_arith)
            requires
                p == 1 || 0x80_0000 * p <= n / d,
                0 < d <= MOST,
                n <= MOST,
                1 <= p,
        ;
        assert(d * p > 0) by (nonlinear_arith)
            requires
                d > 0,
                p >= 1,
        ;
    }
    let m: u128 = d * p;
    let q: u128 = n / m;
    let rest: u128 = n % m;
    proof {
        assert(q * p <= n) by (nonlinear_arith)
            requires
                q == n / m,
                m == d * p,
                d > 0,
                p >= 1,
        ;
        assert((q + 1) * p == q * p + p) by (nonlinear_arith);
        assert(p <= MOST) by (nonlinear_arith)
            requires
                d * p <= MOST,
                d >= 1,
                p >= 1,
        ;
    }
    if 2 * rest < m || (2 * rest == m && q % 2 == 0) {
        q * p
    } else {
        (q + 1) * p
    }
}

/// The single-precision number nearest to `n / d`.
pub fn round(n: i128, d: u128) -> (r: i128)
    requires
        0 < d <= MOST,
        -MOST <= n <= MOST,
    ensures
        r == single(n as int, d as nat),
{
    if n >= 0 {
        round_magnitude(n as u128, d) as i128
    } else {
        -(round_magnitude((-n) as u128, d) as i128)
    }
}

/// A bound on the parts of [`between`].
pub const FAR: i128 = 0x0800_0000_0000_0000;

proof fn lemma_between(a: int, b: int, t: int)
    requires
        -FAR <= a <= FAR,
        -FAR <= b <= FAR,
        0 <= t <= 2 * UNIT,
    ensures
        -3 * FAR <= single(b - a, 1) <= 3 * FAR,
        -6 * FAR * UNIT <= single(b - a, 1) * t <= 6 * FAR * UNIT,
        -7 * FAR <= single(single(b - a, 1) * t, UNIT as nat) <= 7 * FAR,
        -9 * FAR <= between(a, b, t) <= 9 * FAR,
{
    rounding_is_small(b - a, 1, (2 * FAR) as nat);
    let d = single(b - a, 1);
    assert(-6 * FAR * UNIT <= d * t <= 6 * FAR * UNIT) by (nonlinear_arith)
        requires
            -3 * FAR <= d <= 3 * FAR,
            0 <= t <= 2 * UNIT,
    ;
    rounding_is_small(d * t, UNIT as nat, (6 * FAR) as nat);
    let e = single(d * t, UNIT as nat);
    assert(-7 * FAR <= e <= 7 * FAR);
    rounding_is_small(a + e, 1, (8 * FAR) as nat);
}

/// The number between `a` and `b`, `t` of the way from the first to the second.
pub fn interpolate(a: i128, b: i128, t: i128) -> (r: i128)
    requires
        -FAR <= a <= FAR,
        -FAR <= b <= FAR,
        0 <= t <= 2 * UNIT,
    ensures
        r == between(a as int, b as int, t as int),
        -9 * FAR <= r <= 9 * FAR,
{
    proof {
        lemma_between(a as int, b as int, t as int);
    }
    let d = round(b - a, 1);
    let e = round(d * t, UNIT as u128);
    round(a + e, 1)
}

/// The whole number nearest to a number of units.
pub fn to_whole(v: i128) -> (r: i128)
    requires
        -MOST <= v <= MOST,
    ensures
        r == whole(v as int),
        -MOST <= r <= MOST,
{
    if v >= 0 {
        (2 * v + UNIT) / (2 * UNIT)
    } else {
        let w: i128 = -v;
        -((2 * w + UNIT) / (2 * UNIT))
    }
}

} // verus!
