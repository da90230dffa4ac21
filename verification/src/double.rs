//! Double-precision arithmetic on non-negative numbers, worked out with
//! integers.
//!
//! A double holds fifty-three significant bits; a result that needs more is
//! rounded to the nearest double, and a halfway case to the even neighbour.
//! A double is written here as a fraction `n / den`, where `den` is a power
//! of two.

use vstd::prelude::*;

verus! {

/// Two to the fifty-second: the least significand with fifty-three bits.
pub const LEAST: u128 = 0x10_0000_0000_0000;

/// A bound on the denominators that occur.
pub const DEN_BOUND: u128 = 0x10_0000_0000_0000_0000_0000_0000;

/// The whole number nearest to `n / d`, a halfway case to the even one.
pub open spec fn nearest(n: nat, d: nat) -> nat {
    let q = n / d;
    let r = n % d;
    if 2 * r < d || (2 * r == d && q % 2 == 0) {
        q
    } else {
        q + 1
    }
}

/// The multiple of `unit`, or of a unit some powers of two larger, that is
/// nearest to `n` and has at most fifty-three significant bits.
pub open spec fn whole_double(n: nat, unit: nat) -> nat
    decreases n - unit,
{
    if unit == 0 || n < unit * (2 * LEAST) {
        nearest(n, unit) * unit
    } else {
        proof {
            assert(unit * (2 * LEAST) >= 2 * unit) by (nonlinear_arith)
                requires
                    LEAST >= 1,
            ;
        }
        whole_double(n, 2 * unit)
    }
}

/// The double nearest to `(n / d) / den`, as a significand and the power of
/// two below it.
pub open spec fn quotient_double(n: nat, d: nat, den: nat) -> (nat, nat)
    decreases
            (if n < d * LEAST {
                d * LEAST - n
            } else {
                0
            }),
{
    if n == 0 || n >= d * LEAST {
        (nearest(n, d), den)
    } else {
        quotient_double(2 * n, d, 2 * den)
    }
}

pub fn nearest_of(n: u128, d: u128) -> (r: u128)
    requires
        0 < d < 0x4000_0000_0000_0000_0000_0000_0000_0000,
        n < 0x4000_0000_0000_0000_0000_0000_0000_0000,
    ensures
        r == nearest(n as nat, d as nat),
        r <= n / d + 1,
        r >= n / d,
{
    let q: u128 = n / d;
    let r: u128 = n % d;
    assert(q <= n) by (nonlinear_arith)
        requires
            q == n / d,
            0 < d,
    ;
    if 2 * r < d || (2 * r == d && q % 2 == 0) {
        q
    } else {
        q + 1
    }
}

/// The double nearest to a whole number.
pub fn whole_double_of(n: u128) -> (r: u128)
    requires
        n < DEN_BOUND,
    ensures
        r == whole_double(n as nat, 1),
        r == n || r >= LEAST,
        r <= 2 * n,
{
    let mut unit: u128 = 1;
    while n >= unit * (2 * LEAST)
        invariant
            n < DEN_BOUND,
            1 <= unit,
            unit == 1 || n >= unit * LEAST,
            whole_double(n as nat, unit as nat) == whole_double(n as nat, 1),
            unit * LEAST <= DEN_BOUND,
        decreases DEN_BOUND - unit,
    {
        assert(2 * unit * LEAST <= n) by (nonlinear_arith)
            requires
                n >= unit * (2 * LEAST),
        ;
        unit = unit * 2;
    }
    let q: u128 = nearest_of(n, unit);
    proof {
        let k = n / unit;
        assert(k * unit <= n) by (nonlinear_arith)
            requires
                k == n / unit,
                0 < unit,
        ;
        assert(q * unit <= k * unit + unit) by (nonlinear_arith)
            requires
                q <= k + 1,
                0 < unit,
        ;
        if unit > 1 {
            assert(k >= LEAST) by (nonlinear_arith)
                requires
                    k == n / unit,
                    n >= unit * LEAST,
                    0 < unit,
            ;
            assert(q * unit >= LEAST) by (nonlinear_arith)
                requires
                    q >= LEAST,
                    unit >= 1,
            ;
        } else {
            assert(n % 1 == 0);
            assert(q == n);
        }
    }
    q * unit
}

/// The double nearest to `(n / d) / den`.
pub fn quotient_of(n: u128, d: u128, den: u128) -> (r: (u128, u128))
    requires
        0 < n < DEN_BOUND,
        0 < d <= 0x100_0000_0000,
        0 < den,
        den * (2 * d * LEAST) <= n * DEN_BOUND,
    ensures
        r.0 == quotient_double(n as nat, d as nat, den as nat).0,
        r.1 == quotient_double(n as nat, d as nat, den as nat).1,
        0 < r.1 <= DEN_BOUND || r.1 == den,
        r.0 <= 2 * LEAST || r.0 <= n / d + 1,
        r.0 >= LEAST,
{
    let bar: u128 = d * LEAST;
    let mut num: u128 = n;
    let mut under: u128 = den;
    while num < bar
        invariant
            0 < n < DEN_BOUND,
            0 < d <= 0x100_0000_0000,
            0 < den,
            den * (2 * d * LEAST) <= n * DEN_BOUND,
            bar == d * LEAST,
            0 < num,
            num == n || num < 2 * bar,
            0 < under,
            under == den || under <= DEN_BOUND,
            num * den == n * under,
            quotient_double(num as nat, d as nat, under as nat) == quotient_double(
                n as nat,
                d as nat,
                den as nat,
            ),
        decreases
                (if num < bar {
                    bar - num
                } else {
                    0
                }),
    {
        assert(2 * under <= DEN_BOUND) by (nonlinear_arith)
            requires
                0 < n,
                0 < den,
                num < d * LEAST,
                num * den == n * under,
                den * (2 * d * LEAST) <= n * DEN_BOUND,
        ;
        assert((2 * num) * den == n * (2 * under)) by (nonlinear_arith)
            requires
                num * den == n * under,
        ;
        num = num * 2;
        under = under * 2;
    }
    let q: u128 = nearest_of(num, d);
    proof {
        assert(num / d >= LEAST) by (nonlinear_arith)
            requires
                num >= d * LEAST,
                0 < d,
        ;
        if num != n {
            assert(num / d < 2 * LEAST) by (nonlinear_arith)
                requires
                    num < 2 * (d * LEAST),
                    0 < d,
            ;
        }
    }
    (q, under)
}

/// Rounding a whole number to a double moves it by at most one part in two to
/// the fifty-third.
pub proof fn whole_doubles_are_close(n: nat, unit: nat)
    requires
        unit >= 1,
        unit == 1 || n >= unit * LEAST,
    ensures
        0x20_0000_0000_0000 * whole_double(n, unit) <= 0x20_0000_0000_0001 * n,
        0x1f_ffff_ffff_ffff * n <= 0x20_0000_0000_0000 * whole_double(n, unit),
    decreases n - unit,
{
    if n < unit * (2 * LEAST) {
        let q = n / unit;
        let r = n % unit;
        let w = nearest(n, unit) * unit;
        vstd::arithmetic::div_mod::lemma_fundamental_div_mod(n as int, unit as int);
        if unit == 1 {
            assert(w == n);
        } else {
            assert(n == unit * q + r && r < unit);
            let k = nearest(n, unit);
            assert(k == q ==> k * unit == q * unit);
            assert(k == q + 1 ==> k * unit == q * unit + unit) by (nonlinear_arith);
            assert(unit * q == q * unit) by (nonlinear_arith);
            assert(2 * w <= 2 * n + unit && 2 * n <= 2 * w + unit);
            assert(unit * LEAST == unit * 0x10_0000_0000_0000);
        }
    } else {
        assert(unit * (2 * LEAST) >= 2 * unit) by (nonlinear_arith)
            requires
                LEAST >= 1,
        ;
        assert(unit * (2 * LEAST) == (2 * unit) * LEAST) by (nonlinear_arith);
        whole_doubles_are_close(n, 2 * unit);
    }
}

/// The nearest whole number is off by at most a half.
pub proof fn nearest_is_close(n: nat, d: nat)
    requires
        d > 0,
    ensures
        2 * (nearest(n, d) * d) <= 2 * n + d,
        2 * n <= 2 * (nearest(n, d) * d) + d,
{
    let q = n / d;
    let r = n % d;
    let k = nearest(n, d);
    vstd::arithmetic::div_mod::lemma_fundamental_div_mod(n as int, d as int);
    assert(d * q == q * d) by (nonlinear_arith);
    assert(k == q ==> k * d == q * d);
    assert(k == q + 1 ==> k * d == q * d + d) by (nonlinear_arith);
}

/// A quotient is worked out to fifty-three bits: scaled up by the returned
/// factor it is off by at most a half, and that factor makes it large.
pub proof fn quotients_are_close(n: nat, d: nat, den: nat) -> (f: nat)
    requires
        d > 0,
        den > 0,
    ensures
        ({
            let (m, e) = quotient_double(n, d, den);
            &&& f >= 1
            &&& e == den * f
            &&& 2 * (m * d) <= 2 * (n * f) + d
            &&& 2 * (n * f) <= 2 * (m * d) + d
            &&& n == 0 || n * f >= d * LEAST
        }),
    decreases
            (if n < d * LEAST {
                d * LEAST - n
            } else {
                0
            }),
{
    if n == 0 || n >= d * LEAST {
        nearest_is_close(n, d);
        assert(n * 1 == n && den * 1 == den);
        1
    } else {
        let g = quotients_are_close(2 * n, d, 2 * den);
        assert((2 * den) * g == den * (2 * g)) by (nonlinear_arith);
        assert((2 * n) * g == n * (2 * g)) by (nonlinear_arith);
        2 * g
    }
}

} // verus!
