//! Double-precision numbers, held as their 64-bit patterns and worked out with
//! integers.
//!
//! A pattern below the sign bit stands for a number that is not negative: a
//! multiple of the least double, two to the minus 1074th. Its lowest fifty-two
//! bits are the end of the significand, those above them tell by how many
//! powers of two the significand is shifted. A greater pattern stands for a
//! greater number. What lies between two doubles is rounded to the nearer one,
//! and a halfway case to the one whose significand is even.

use vstd::prelude::*;

use crate::double::{nearest, nearest_of};

verus! {

/// The bit that is set in the pattern of a negative number.
pub const SIGN: u64 = 0x8000_0000_0000_0000;

/// The pattern of infinity. What lies between it and the sign bit is not a
/// number.
pub const INFINITE: u64 = 0x7FF0_0000_0000_0000;

/// How many patterns share a shift.
pub const STEP: u64 = 0x10_0000_0000_0000;

/// The pattern of one.
pub const ONE: u64 = 0x3FF0_0000_0000_0000;

/// The pattern of sixty.
pub const SIXTY: u64 = 0x404E_0000_0000_0000;

/// The pattern of one hundred.
pub const HUNDRED: u64 = 0x4059_0000_0000_0000;

/// How many billionths make one.
pub const BILLION: u64 = 1_000_000_000;

/// How many powers of two the least double is below one.
pub const DEPTH: u32 = 1074;

/// A double.
#[derive(Debug, Clone, Copy, PartialEq, Eq, Structural)]
pub struct Double {
    pub bits: u64,
}

/// The `n`-th power of two.
pub open spec fn two_to(n: nat) -> nat
    decreases n,
{
    if n == 0 {
        1
    } else {
        2 * two_to((n - 1) as nat)
    }
}

/// The significand that a pattern writes.
pub open spec fn significand(m: nat) -> nat {
    if m < STEP {
        m
    } else {
        m % (STEP as nat) + STEP as nat
    }
}

/// By how many powers of two the significand of a pattern is shifted.
pub open spec fn shift_of(m: nat) -> nat {
    if m < STEP {
        0
    } else {
        (m / (STEP as nat) - 1) as nat
    }
}

/// How many times the least double a pattern stands for.
pub open spec fn units(m: nat) -> nat {
    significand(m) * two_to(shift_of(m))
}

/// How many times the least double goes into one.
pub open spec fn units_of_one() -> nat {
    two_to(DEPTH as nat)
}

/// The pattern of the double nearest to `n / d`, where the last place counts
/// `shift` powers of two.
pub open spec fn pattern_from(n: nat, d: nat, shift: nat) -> nat
    decreases n - d,
{
    if d == 0 || n < d * (2 * STEP) {
        shift * STEP as nat + nearest(n, d)
    } else {
        proof {
            assert(d * (2 * STEP) >= 2 * d) by (nonlinear_arith)
                requires
                    STEP >= 1,
            ;
        }
        pattern_from(n, 2 * d, shift + 1)
    }
}

/// The pattern of the double nearest to `n / d` of the least double. What is
/// beyond the greatest double is infinite.
pub open spec fn rounded(n: nat, d: nat) -> u64 {
    let m = pattern_from(n, d, 0);
    if m < INFINITE {
        m as u64
    } else {
        INFINITE
    }
}

impl Double {
    /// The pattern without the sign.
    pub open spec fn magnitude(self) -> nat {
        if self.bits >= SIGN {
            (self.bits - SIGN) as nat
        } else {
            self.bits as nat
        }
    }

    pub open spec fn is_nan(self) -> bool {
        self.magnitude() > INFINITE
    }

    pub open spec fn is_finite(self) -> bool {
        self.magnitude() < INFINITE
    }

    /// The number is above zero, or infinite.
    pub open spec fn is_positive(self) -> bool {
        0 < self.bits <= INFINITE
    }

    /// The number is at least the positive one with the given pattern.
    pub open spec fn reaches(self, bar: u64) -> bool {
        bar <= self.bits <= INFINITE
    }

    /// The number is zero, with or without a sign.
    pub open spec fn is_zero(self) -> bool {
        self.magnitude() == 0
    }

    /// The number lies between zero and the positive one with the given
    /// pattern.
    pub open spec fn lies_within(self, bar: u64) -> bool {
        self.bits <= bar || self.bits == SIGN
    }
}

/// Whether a number is finite.
pub fn finite(r: Double) -> (b: bool)
    ensures
        b == r.is_finite(),
{
    if r.bits >= SIGN {
        r.bits - SIGN < INFINITE
    } else {
        r.bits < INFINITE
    }
}

/// Whether a number is zero, with or without a sign.
pub fn zero(r: Double) -> (b: bool)
    ensures
        b == r.is_zero(),
{
    r.bits == 0 || r.bits == SIGN
}

/// Whether a number is above zero, or infinite.
pub fn positive(r: Double) -> (b: bool)
    ensures
        b == r.is_positive(),
{
    0 < r.bits && r.bits <= INFINITE
}

pub proof fn two_to_is_positive(n: nat)
    ensures
        two_to(n) > 0,
    decreases n,
{
    if n > 0 {
        two_to_is_positive((n - 1) as nat);
    }
}

pub proof fn two_to_sum(a: nat, b: nat)
    ensures
        two_to(a + b) == two_to(a) * two_to(b),
    decreases a,
{
    if a == 0 {
        assert(1 * two_to(b) == two_to(b));
    } else {
        two_to_sum((a - 1) as nat, b);
        assert(two_to(a + b) == 2 * two_to((a + b - 1) as nat));
        assert(2 * (two_to((a - 1) as nat) * two_to(b)) == two_to(a) * two_to(b)) by (nonlinear_arith)
            requires
                two_to(a) == 2 * two_to((a - 1) as nat),
        ;
    }
}

/// Small powers of two.
proof fn some_powers()
    ensures
        two_to(10) == 0x400,
        two_to(11) == 0x800,
        two_to(12) == 0x1000,
        two_to(18) == 0x4_0000,
        two_to(52) == STEP,
        two_to(53) == 2 * STEP,
        two_to(54) == 4 * STEP,
        two_to(63) == 0x8000_0000_0000_0000,
        two_to(64) == 0x1_0000_0000_0000_0000,
{
    reveal_with_fuel(two_to, 66);
}

pub proof fn two_to_grows(a: nat, b: nat)
    requires
        a <= b,
    ensures
        two_to(a) <= two_to(b),
    decreases b,
{
    if a < b {
        two_to_grows(a, (b - 1) as nat);
        two_to_is_positive((b - 1) as nat);
    }
}

/// `2^n`.
fn power_of_two(n: u32) -> (r: u128)
    requires
        n <= 127,
    ensures
        r == two_to(n as nat),
{
    let mut r: u128 = 1;
    let mut i: u32 = 0;
    assert(two_to(127) == 0x8000_0000_0000_0000_0000_0000_0000_0000) by {
        some_powers();
        two_to_sum(64, 63);
        assert(two_to(127) == 0x8000_0000_0000_0000_0000_0000_0000_0000) by (nonlinear_arith)
            requires
                two_to(127) == two_to(64) * two_to(63),
                two_to(64) == 0x1_0000_0000_0000_0000,
                two_to(63) == 0x8000_0000_0000_0000,
        ;
    }
    while i < n
        invariant
            i <= n <= 127,
            r == two_to(i as nat),
            two_to(127) == 0x8000_0000_0000_0000_0000_0000_0000_0000,
        decreases n - i,
    {
        proof {
            two_to_grows(i as nat + 1, 127);
            assert(two_to(i as nat + 1) == 2 * two_to(i as nat));
        }
        r = r * 2;
        i = i + 1;
    }
    r
}

/// A fraction that is extended is rounded alike.
proof fn nearest_scales(n: nat, d: nat, c: nat)
    requires
        d > 0,
        c > 0,
    ensures
        nearest(c * n, c * d) == nearest(n, d),
{
    let q = (n / d) as int;
    let r = (n % d) as int;
    vstd::arithmetic::div_mod::lemma_fundamental_div_mod(n as int, d as int);
    assert(c * n == q * (c * d) + c * r) by (nonlinear_arith)
        requires
            n == d * q + r,
    ;
    assert(0 <= c * r < c * d) by (nonlinear_arith)
        requires
            0 <= r < d,
            c > 0,
    ;
    vstd::arithmetic::div_mod::lemma_fundamental_div_mod_converse(
        (c * n) as int,
        (c * d) as int,
        q,
        (c * r) as int,
    );
    assert(2 * (c * r) < c * d <==> 2 * r < d) by (nonlinear_arith)
        requires
            c > 0,
    ;
    assert(2 * (c * r) == c * d <==> 2 * r == d) by (nonlinear_arith)
        requires
            c > 0,
    ;
}

/// A fraction that is extended has the same pattern.
pub proof fn pattern_scales(n: nat, d: nat, c: nat, shift: nat)
    requires
        d > 0,
        c > 0,
    ensures
        pattern_from(c * n, c * d, shift) == pattern_from(n, d, shift),
    decreases n - d,
{
    assert(c * d > 0) by (nonlinear_arith)
        requires
            c > 0,
            d > 0,
    ;
    assert(c * n < (c * d) * (2 * STEP) <==> n < d * (2 * STEP)) by (nonlinear_arith)
        requires
            c > 0,
    ;
    if n < d * (2 * STEP) {
        nearest_scales(n, d, c);
    } else {
        assert(d * (2 * STEP) >= 2 * d) by (nonlinear_arith)
            requires
                STEP >= 1,
        ;
        pattern_scales(n, 2 * d, c, shift + 1);
        assert(2 * (c * d) == c * (2 * d)) by (nonlinear_arith);
    }
}

/// Powers of two in a number that needs none of them go into the shift.
proof fn powers_go_into_the_shift(n: nat, d: nat, k: nat, shift: nat)
    requires
        d > 0,
        k > 0 ==> n >= d * STEP,
    ensures
        pattern_from(n * two_to(k), d, shift) == pattern_from(n, d, shift + k),
    decreases k,
{
    if k == 0 {
        assert(two_to(0) == 1 && n * 1 == n);
    } else {
        let less = two_to((k - 1) as nat);
        two_to_is_positive((k - 1) as nat);
        assert(n * two_to(k) == 2 * (n * less)) by (nonlinear_arith)
            requires
                two_to(k) == 2 * less,
        ;
        assert(2 * (n * less) >= d * (2 * STEP)) by (nonlinear_arith)
            requires
                n >= d * STEP,
                less >= 1,
        ;
        pattern_scales(n * less, d, 2, shift + 1);
        powers_go_into_the_shift(n, d, (k - 1) as nat, shift + 1);
    }
}

/// A number that is great enough has a pattern that is.
pub proof fn great_numbers_have_great_patterns(n: nat, d: nat, t: nat, shift: nat)
    requires
        d > 0,
        n >= (d * STEP) * two_to(t),
    ensures
        pattern_from(n, d, shift) >= (shift + t + 1) * STEP,
    decreases n - d,
{
    two_to_is_positive(t);
    assert(n >= d * STEP) by (nonlinear_arith)
        requires
            n >= (d * STEP) * two_to(t),
            two_to(t) >= 1,
            d > 0,
    ;
    if n < d * (2 * STEP) {
        if t > 0 {
            two_to_is_positive((t - 1) as nat);
            assert((d * STEP) * two_to(t) >= d * (2 * STEP)) by (nonlinear_arith)
                requires
                    two_to(t) >= 2,
            ;
        }
        assert(n / d >= STEP) by (nonlinear_arith)
            requires
                n >= d * STEP,
                d > 0,
        ;
    } else if t > 0 {
        let less = two_to((t - 1) as nat);
        assert(((2 * d) * STEP) * less == (d * STEP) * two_to(t)) by (nonlinear_arith)
            requires
                two_to(t) == 2 * less,
        ;
        great_numbers_have_great_patterns(n, 2 * d, (t - 1) as nat, shift + 1);
    } else {
        assert(n >= ((2 * d) * STEP) * two_to(0)) by (nonlinear_arith)
            requires
                n >= d * (2 * STEP),
                two_to(0) == 1,
        ;
        great_numbers_have_great_patterns(n, 2 * d, 0, shift + 1);
        assert((shift + 1 + 0 + 1) * STEP >= (shift + 1) * STEP) by (nonlinear_arith);
    }
}

/// The pattern of the double nearest to `n * 2^k / d` of the least double.
pub fn pattern_of(n: u128, d: u128, k: u32) -> (r: u64)
    requires
        0 < d <= 0x4000_0000,
        n < 0x40_0000_0000_0000_0000_0000_0000_0000,
        k <= 4_000,
    ensures
        r == rounded((n * two_to(k as nat)) as nat, d as nat),
{
    let bar: u128 = d * STEP as u128;
    let ghost goal = pattern_from((n * two_to(k as nat)) as nat, d as nat, 0);
    let mut num: u128 = n;
    let mut shift: u32 = k;
    while num < bar && shift > 0
        invariant
            0 < d <= 0x4000_0000,
            bar == d * STEP,
            num < 0x40_0000_0000_0000_0000_0000_0000_0000,
            shift <= k <= 4_000,
            num * two_to(shift as nat) == n * two_to(k as nat),
        decreases shift,
    {
        proof {
            let less = two_to((shift - 1) as nat);
            assert((2 * num) * less == num * two_to(shift as nat)) by (nonlinear_arith)
                requires
                    two_to(shift as nat) == 2 * less,
            ;
        }
        num = num * 2;
        shift = shift - 1;
    }
    proof {
        powers_go_into_the_shift(num as nat, d as nat, shift as nat, 0);
    }
    let mut den: u128 = d;
    let top: u128 = 0x20_0000_0000_0000;
    while num >= den * top
        invariant
            top == 0x20_0000_0000_0000,
            top == 2 * STEP,
            0 < den <= 0x40_0000_0000_0000_0000,
            num < 0x40_0000_0000_0000_0000_0000_0000_0000,
            shift <= 4_000,
            goal == pattern_from((n * two_to(k as nat)) as nat, d as nat, 0),
            goal == pattern_from(num as nat, den as nat, shift as nat),
        decreases num - den,
    {
        proof {
            assert(den < 0x2_0000_0000_0000_0000) by (nonlinear_arith)
                requires
                    num >= den * 0x20_0000_0000_0000,
                    num < 0x40_0000_0000_0000_0000_0000_0000_0000,
            ;
        }
        if shift >= 2_046 {
            proof {
                assert(two_to(0) == 1 && (den * STEP) * 1 == den * STEP);
                great_numbers_have_great_patterns(num as nat, den as nat, 0, shift as nat);
                assert((shift + 0 + 1) * STEP >= 2_047 * STEP) by (nonlinear_arith)
                    requires
                        shift >= 2_046,
                ;
                assert(2_047 * STEP == INFINITE);
            }
            return INFINITE;
        }
        den = den * 2;
        shift = shift + 1;
    }
    proof {
        assert(num / den <= 2 * STEP) by (nonlinear_arith)
            requires
                num < den * (2 * STEP),
                den > 0,
        ;
    }
    let q: u128 = nearest_of(num, den);
    let wide: u128 = shift as u128 * STEP as u128 + q;
    if wide < INFINITE as u128 {
        wide as u64
    } else {
        INFINITE
    }
}

/// The significand and the shift of a finite number.
pub fn parts_of(m: u64) -> (r: (u64, u32))
    requires
        m < INFINITE,
    ensures
        r.0 == significand(m as nat),
        r.1 == shift_of(m as nat),
        r.0 < 2 * STEP,
        r.1 <= 2_045,
        r.1 > 0 ==> r.0 >= STEP,
{
    if m < STEP {
        (m, 0)
    } else {
        ((m % STEP) + STEP, (m / STEP - 1) as u32)
    }
}

/// A number that is not negative, times a whole one.
pub open spec fn times(m: u64, factor: nat) -> u64 {
    if m >= INFINITE {
        m
    } else {
        rounded(units(m as nat) * factor, 1)
    }
}

/// A number that is not negative, divided by a whole one.
pub open spec fn over(m: u64, divisor: nat) -> u64 {
    if m >= INFINITE {
        m
    } else {
        rounded(units(m as nat), divisor)
    }
}

/// The double nearest to a fraction of whole numbers.
pub open spec fn ratio(n: nat, d: nat) -> u64 {
    rounded(n * units_of_one(), d)
}

pub fn times_of(m: u64, factor: u128) -> (r: u64)
    requires
        factor <= 0x1_0000_0000_0000_0000,
    ensures
        r == times(m, factor as nat),
{
    if m >= INFINITE {
        return m;
    }
    let (sig, shift): (u64, u32) = parts_of(m);
    proof {
        let p = two_to(shift as nat);
        assert(sig * factor <= 0x20_0000_0000_0000 * 0x1_0000_0000_0000_0000) by (nonlinear_arith)
            requires
                sig < 0x20_0000_0000_0000,
                factor <= 0x1_0000_0000_0000_0000,
        ;
        assert((sig * factor) * p == (sig * p) * factor) by (nonlinear_arith);
    }
    pattern_of(sig as u128 * factor, 1, shift)
}

pub fn over_of(m: u64, divisor: u64) -> (r: u64)
    requires
        0 < divisor <= 0x4000_0000,
    ensures
        r == over(m, divisor as nat),
{
    if m >= INFINITE {
        return m;
    }
    let (sig, shift): (u64, u32) = parts_of(m);
    pattern_of(sig as u128, divisor as u128, shift)
}

pub fn ratio_of(n: u128, d: u64) -> (r: u64)
    requires
        0 < d <= 0x4000_0000,
        n <= 0x4_0000_0000_0000_0000,
    ensures
        r == ratio(n as nat, d as nat),
{
    pattern_of(n, d as u128, DEPTH)
}

/// The whole number nearest to a finite one that is not negative; halfway
/// cases go up.
pub open spec fn whole_of(m: u64) -> nat {
    (2 * units(m as nat) + units_of_one()) / (2 * units_of_one())
}

/// `n`, but not above the greatest 64-bit number.
pub open spec fn sat64(n: nat) -> u64 {
    if n <= u64::MAX {
        n as u64
    } else {
        u64::MAX
    }
}

proof fn whole_cancels(n: nat, u: nat, c: nat)
    requires
        u > 0,
        c > 0,
    ensures
        (2 * (c * n) + c * u) / (2 * (c * u)) == (2 * n + u) / (2 * u),
{
    let q = ((2 * n + u) / (2 * u)) as int;
    let r = ((2 * n + u) % (2 * u)) as int;
    vstd::arithmetic::div_mod::lemma_fundamental_div_mod((2 * n + u) as int, (2 * u) as int);
    assert(2 * (c * n) + c * u == q * (2 * (c * u)) + c * r) by (nonlinear_arith)
        requires
            2 * n + u == (2 * u) * q + r,
    ;
    assert(0 <= c * r < 2 * (c * u)) by (nonlinear_arith)
        requires
            0 <= r < 2 * u,
            c > 0,
    ;
    vstd::arithmetic::div_mod::lemma_fundamental_div_mod_converse(
        (2 * (c * n) + c * u) as int,
        (2 * (c * u)) as int,
        q,
        (c * r) as int,
    );
}

/// The nearest whole number, held at the greatest 64-bit one.
pub fn whole_number(m: u64) -> (r: u64)
    requires
        m < INFINITE,
    ensures
        r == sat64(whole_of(m)),
{
    let (sig, shift): (u64, u32) = parts_of(m);
    let ghost one = units_of_one();
    let ghost p = two_to(shift as nat);
    proof {
        two_to_is_positive(DEPTH as nat);
        two_to_is_positive(shift as nat);
        some_powers();
    }
    if shift >= DEPTH {
        let up: u32 = shift - DEPTH;
        let ghost x = (sig * two_to(up as nat)) as nat;
        proof {
            two_to_sum(DEPTH as nat, up as nat);
            assert(sig * p == x * one) by (nonlinear_arith)
                requires
                    p == one * two_to(up as nat),
                    x == sig * two_to(up as nat),
            ;
            assert((2 * (x * one) + one) / (2 * one) == x) by {
                assert(2 * (x * one) + one == x * (2 * one) + one) by (nonlinear_arith);
                vstd::arithmetic::div_mod::lemma_fundamental_div_mod_converse(
                    (2 * (x * one) + one) as int,
                    (2 * one) as int,
                    x as int,
                    one as int,
                );
            }
        }
        if up >= 12 {
            proof {
                two_to_grows(12, up as nat);
                assert(x >= 0x10_0000_0000_0000 * 0x1000) by (nonlinear_arith)
                    requires
                        x == sig * two_to(up as nat),
                        sig >= 0x10_0000_0000_0000,
                        two_to(up as nat) >= 0x1000,
                ;
            }
            return u64::MAX;
        }
        let scale: u128 = power_of_two(up);
        proof {
            two_to_grows(up as nat, 12);
            assert(sig * scale <= 0x20_0000_0000_0000 * 0x1000) by (nonlinear_arith)
                requires
                    sig < 0x20_0000_0000_0000,
                    scale <= 0x1000,
            ;
        }
        let wide: u128 = sig as u128 * scale;
        return if wide <= u64::MAX as u128 {
            wide as u64
        } else {
            u64::MAX
        };
    }
    let down: u32 = DEPTH - shift;
    let ghost t = two_to(down as nat);
    proof {
        two_to_sum(shift as nat, down as nat);
        two_to_is_positive(down as nat);
        assert(one == p * t);
        assert(sig * p == p * sig) by (nonlinear_arith);
        whole_cancels(sig as nat, t, p);
    }
    if down > 60 {
        proof {
            two_to_grows(54, down as nat);
            assert((2 * sig + t) / (2 * t as int) == 0) by (nonlinear_arith)
                requires
                    2 * sig < t,
                    t > 0,
                    sig >= 0,
            ;
        }
        return 0;
    }
    let den: u128 = power_of_two(down);
    proof {
        two_to_grows(down as nat, 64);
    }
    let r: u128 = (2 * sig as u128 + den) / (2 * den);
    proof {
        assert(r <= 2 * sig + den) by (nonlinear_arith)
            requires
                r == (2 * sig + den) / (2 * den),
                den >= 1,
                sig >= 0,
        ;
        assert(r <= u64::MAX) by (nonlinear_arith)
            requires
                r == (2 * sig + den) / (2 * den),
                den >= 1,
                sig < 0x20_0000_0000_0000,
        ;
    }
    r as u64
}

/// `w` parts of two to the sixty-fourth are less than the number.
pub open spec fn share_below(w: nat, m: u64) -> bool {
    w * units_of_one() < units(m as nat) * 0x1_0000_0000_0000_0000
}

/// Whether `w` parts of two to the sixty-fourth are less than a number of at
/// most one hundred.
pub fn is_share_below(w: u128, m: u64) -> (r: bool)
    requires
        0 < m <= HUNDRED,
        w < 0x400_0000_0000_0000_0000,
    ensures
        r == share_below(w as nat, m),
{
    let (sig, shift): (u64, u32) = parts_of(m);
    assert(shift <= 1_028);
    let ghost p = two_to(shift as nat);
    let ghost one = units_of_one();
    let ghost wide = 0x1_0000_0000_0000_0000nat;
    proof {
        some_powers();
        two_to_sum(1_010, 64);
        two_to_is_positive(1_010);
        two_to_is_positive(shift as nat);
    }
    let ghost base = two_to(1_010);
    assert(one == base * wide);
    assert(share_below(w as nat, m) == (w * base < sig * p)) by (nonlinear_arith)
        requires
            share_below(w as nat, m) == (w * one < (sig * p) * wide),
            one == base * wide,
            wide > 0,
    ;
    if shift >= 1_010 {
        let up: u32 = shift - 1_010;
        let scale: u128 = power_of_two(up);
        proof {
            two_to_sum(1_010, up as nat);
            two_to_grows(up as nat, 18);
            assert((w * base < sig * p) == (w < sig * scale)) by (nonlinear_arith)
                requires
                    p == base * scale,
                    base > 0,
            ;
            assert(sig * scale <= 0x20_0000_0000_0000 * 0x4_0000) by (nonlinear_arith)
                requires
                    sig < 0x20_0000_0000_0000,
                    scale <= 0x4_0000,
            ;
        }
        return w < sig as u128 * scale;
    }
    let down: u32 = 1_010 - shift;
    let ghost t = two_to(down as nat);
    proof {
        two_to_sum(shift as nat, down as nat);
        assert((w * base < sig * p) == (w * t < sig)) by (nonlinear_arith)
            requires
                base == p * t,
                p > 0,
        ;
    }
    if down >= 54 {
        proof {
            two_to_grows(54, down as nat);
            if w > 0 {
                assert(w * t >= t) by (nonlinear_arith)
                    requires
                        w >= 1,
                        t >= 0,
                ;
            } else {
                assert(0 * t == 0);
                assert(sig > 0);
            }
        }
        return w == 0;
    }
    let scale: u128 = power_of_two(down);
    proof {
        two_to_grows(down as nat, 53);
        assert(w * scale <= 0x400_0000_0000_0000_0000 * 0x20_0000_0000_0000) by (nonlinear_arith)
            requires
                w < 0x400_0000_0000_0000_0000,
                scale <= 0x20_0000_0000_0000,
        ;
    }
    w * scale < sig as u128
}

/// So many nanoseconds are no more than a number of seconds. What is negative
/// or not a number covers nothing.
pub open spec fn covers(secs: Double, ns: int) -> bool {
    if secs.bits < INFINITE {
        ns * units_of_one() <= units(secs.bits as nat) * BILLION
    } else {
        secs.bits == INFINITE
    }
}

/// Whether so many nanoseconds are no more than a number of seconds.
pub fn is_covered(secs: Double, ns: u128) -> (r: bool)
    ensures
        r == covers(secs, ns as int),
{
    if secs.bits >= INFINITE {
        return secs.bits == INFINITE;
    }
    let (sig, shift): (u64, u32) = parts_of(secs.bits);
    let b: u128 = sig as u128 * BILLION as u128;
    let ghost p = two_to(shift as nat);
    let ghost one = units_of_one();
    proof {
        two_to_is_positive(shift as nat);
        two_to_is_positive(DEPTH as nat);
        assert((sig * p) * BILLION == b * p) by (nonlinear_arith)
            requires
                b == sig * BILLION,
        ;
        some_powers();
    }
    if shift <= DEPTH {
        let down: u32 = DEPTH - shift;
        let ghost t = two_to(down as nat);
        proof {
            two_to_sum(shift as nat, down as nat);
            two_to_is_positive(down as nat);
            assert((ns * one <= b * p) == (ns * t <= b)) by (nonlinear_arith)
                requires
                    one == p * t,
                    p > 0,
            ;
        }
        if down >= 84 {
            proof {
                two_to_grows(84, down as nat);
                two_to_sum(54, 30);
                assert(two_to(30) == 0x4000_0000) by {
                    reveal_with_fuel(two_to, 31);
                }
                assert(two_to(84) == 4 * STEP * 0x4000_0000) by (nonlinear_arith)
                    requires
                        two_to(84) == two_to(54) * two_to(30),
                        two_to(54) == 4 * STEP,
                        two_to(30) == 0x4000_0000,
                ;
                assert(b < t);
                if ns > 0 {
                    assert(ns * t >= t) by (nonlinear_arith)
                        requires
                            ns >= 1,
                            t >= 0,
                    ;
                } else {
                    assert(0 * t == 0);
                }
            }
            return ns == 0;
        }
        let den: u128 = power_of_two(down);
        assert((ns * den <= b) == (ns <= b / den)) by (nonlinear_arith)
            requires
                den > 0,
        ;
        return ns <= b / den;
    }
    let up: u32 = shift - DEPTH;
    let ghost t = two_to(up as nat);
    proof {
        two_to_sum(DEPTH as nat, up as nat);
        two_to_is_positive(up as nat);
        assert((ns * one <= b * p) == (ns <= b * t)) by (nonlinear_arith)
            requires
                p == one * t,
                one > 0,
        ;
    }
    if up >= 64 {
        proof {
            two_to_grows(64, up as nat);
            assert(b * t >= 0x1_0000_0000_0000_0000 * 0x1_0000_0000_0000_0000) by (nonlinear_arith)
                requires
                    b >= 0x1_0000_0000_0000_0000,
                    t >= 0x1_0000_0000_0000_0000,
            ;
        }
        return true;
    }
    let factor: u128 = power_of_two(up);
    let q: u128 = ns / factor;
    let rest: u128 = ns % factor;
    proof {
        vstd::arithmetic::div_mod::lemma_fundamental_div_mod(ns as int, factor as int);
        assert((ns <= b * factor) == (q < b || (q == b && rest == 0))) by (nonlinear_arith)
            requires
                ns == factor * q + rest,
                0 <= rest < factor,
        ;
    }
    q < b || (q == b && rest == 0)
}

/// A greater pattern stands for a greater number.
pub proof fn patterns_are_in_order(a: nat, b: nat)
    requires
        a < b,
    ensures
        units(a) < units(b),
{
    let (s, t) = (shift_of(a), shift_of(b));
    two_to_is_positive(s);
    two_to_is_positive(t);
    if b < STEP {
        assert(a * 1 < b * 1);
    } else if s == t {
        if a >= STEP {
            vstd::arithmetic::div_mod::lemma_fundamental_div_mod(a as int, STEP as int);
            vstd::arithmetic::div_mod::lemma_fundamental_div_mod(b as int, STEP as int);
            assert(a / (STEP as nat) == b / (STEP as nat));
            assert((STEP as int) * (a / (STEP as nat)) == (STEP as int) * (b / (STEP as nat)));
        } else {
            assert(significand(a) < STEP);
        }
        assert(significand(a) * two_to(s) < significand(b) * two_to(t)) by (nonlinear_arith)
            requires
                significand(a) < significand(b),
                two_to(s) == two_to(t),
                two_to(s) > 0,
        ;
    } else {
        assert(s < t) by {
            if a >= STEP {
                assert(a / (STEP as nat) <= b / (STEP as nat)) by (nonlinear_arith)
                    requires
                        a < b,
                        STEP > 0,
                ;
            }
        }
        two_to_grows(s + 1, t);
        assert(significand(a) * two_to(s) < significand(b) * two_to(t)) by (nonlinear_arith)
            requires
                significand(a) < 2 * STEP,
                significand(b) >= STEP,
                two_to(t) >= 2 * two_to(s),
                two_to(s) > 0,
        ;
    }
}

/// A double is the nearest to itself.
pub proof fn doubles_are_kept(m: u64)
    requires
        m < INFINITE,
    ensures
        rounded(units(m as nat), 1) == m,
{
    let sig = significand(m as nat);
    let shift = shift_of(m as nat);
    powers_go_into_the_shift(sig, 1, shift, 0);
    assert(sig / 1 == sig && sig % 1 == 0);
    if m >= STEP {
        vstd::arithmetic::div_mod::lemma_fundamental_div_mod(m as int, STEP as int);
        assert(shift * STEP + STEP == STEP * (m as nat / (STEP as nat))) by (nonlinear_arith)
            requires
                shift + 1 == m as nat / (STEP as nat),
        ;
    } else {
        assert(0 * (STEP as nat) == 0);
    }
}

/// How often a positive number can be doubled before it takes up fifty-three
/// bits.
proof fn spare_bits(n: nat) -> (j: nat)
    requires
        0 < n < 2 * STEP,
    ensures
        j <= 53,
        STEP <= n * two_to(j) < 2 * STEP,
    decreases 2 * STEP - n,
{
    if n >= STEP {
        assert(n * 1 == n);
        0
    } else {
        let j = spare_bits(2 * n);
        assert((2 * n) * two_to(j) == n * two_to(j + 1)) by (nonlinear_arith)
            requires
                two_to(j + 1) == 2 * two_to(j),
        ;
        if j + 1 > 53 {
            some_powers();
            two_to_grows(54, j + 1);
            assert(n * two_to(j + 1) >= 4 * STEP) by (nonlinear_arith)
                requires
                    n >= 1,
                    two_to(j + 1) >= 4 * STEP,
            ;
        }
        j + 1
    }
}

/// The pattern of a positive whole number of at most fifty-three bits.
proof fn whole_pattern(n: nat) -> (m: nat)
    requires
        0 < n < 2 * STEP,
    ensures
        m < INFINITE,
        pattern_from(n * units_of_one(), 1, 0) == m,
        units(m) == n * units_of_one(),
{
    let one = units_of_one();
    let j = spare_bits(n);
    let shift = (DEPTH - j) as nat;
    let sig = n * two_to(j);
    two_to_sum(j, shift);
    assert(sig * two_to(shift) == n * one) by (nonlinear_arith)
        requires
            sig == n * two_to(j),
            one == two_to(j) * two_to(shift),
    ;
    powers_go_into_the_shift(sig, 1, shift, 0);
    assert(sig / 1 == sig && sig % 1 == 0);
    let m = shift * STEP as nat + sig;
    assert(pattern_from(sig, 1, shift) == m);
    assert(m < INFINITE) by (nonlinear_arith)
        requires
            m == shift * STEP + sig,
            shift <= 1_074,
            sig < 2 * STEP,
            STEP == 0x10_0000_0000_0000,
            INFINITE == 0x7FF0_0000_0000_0000,
    ;
    assert(m == (shift + 1) * STEP + (sig - STEP)) by (nonlinear_arith)
        requires
            m == shift * STEP + sig,
    ;
    vstd::arithmetic::div_mod::lemma_fundamental_div_mod_converse(
        m as int,
        STEP as int,
        (shift + 1) as int,
        sig - STEP,
    );
    assert(m / (STEP as nat) == shift + 1 && m % (STEP as nat) == sig - STEP);
    assert(m >= STEP) by (nonlinear_arith)
        requires
            m == shift * STEP + sig,
            sig >= STEP,
    ;
    assert(significand(m) == sig && shift_of(m) == shift);
    m
}

/// Whole numbers of at most fifty-three bits are doubles.
pub proof fn whole_numbers_are_doubles(n: nat)
    requires
        n < 2 * STEP,
    ensures
        ratio(n, 1) < INFINITE,
        units(ratio(n, 1) as nat) == n * units_of_one(),
        whole_of(ratio(n, 1)) == n,
{
    let one = units_of_one();
    let r = ratio(n, 1);
    two_to_is_positive(DEPTH as nat);
    if n == 0 {
        assert(0 * one == 0);
        assert(nearest(0, 1) == 0);
        assert(pattern_from(0, 1, 0) == 0) by {
            assert(0 * (STEP as nat) == 0);
        }
        assert(r == 0);
        assert(significand(0) == 0 && 0 * two_to(shift_of(0)) == 0);
        assert(units(r as nat) == n * one);
    } else {
        let m = whole_pattern(n);
        assert(r == m);
        assert(units(r as nat) == n * one);
    }
    assert(2 * (n * one) + one == n * (2 * one) + one) by (nonlinear_arith);
    vstd::arithmetic::div_mod::lemma_fundamental_div_mod_converse(
        (2 * (n * one) + one) as int,
        (2 * one) as int,
        n as int,
        one as int,
    );
    assert(whole_of(r) == (2 * (n * one) + one) / (2 * one));
}

/// The pattern of one stands for one.
pub proof fn one_is_one()
    ensures
        units(ONE as nat) == units_of_one(),
{
    assert(ONE as nat / (STEP as nat) == 1_023 && ONE as nat % (STEP as nat) == 0);
    some_powers();
    two_to_sum(52, 1_022);
}

/// What `n / d` is rounded to is off by at most half a last place.
proof fn pattern_is_close(n: nat, d: nat, shift: nat)
    requires
        d > 0,
        shift > 0 ==> n >= d * STEP,
    ensures
        ({
            let m = pattern_from(n, d, shift);
            // `n / d` was counted in places of `shift` powers of two.
            let off = n * two_to(shift) - d * units(m);
            let place = d * two_to(shift_of(m));
            &&& 2 * off <= place
            &&& -place <= 2 * off
        }),
    decreases n - d,
{
    let m = pattern_from(n, d, shift);
    let p = two_to(shift);
    two_to_is_positive(shift);
    if n < d * (2 * STEP) {
        let q = nearest(n, d);
        let r = n % d;
        vstd::arithmetic::div_mod::lemma_fundamental_div_mod(n as int, d as int);
        let whole = n / d;
        assert(whole < 2 * STEP) by (nonlinear_arith)
            requires
                whole == n / d,
                n < d * (2 * STEP),
                d > 0,
        ;
        if shift > 0 {
            assert(whole >= STEP) by (nonlinear_arith)
                requires
                    whole == n / d,
                    n >= d * STEP,
                    d > 0,
            ;
        }
        assert(units(m) == q * p && shift_of(m) >= shift) by {
            place_value(q, shift);
        }
        let off = n - d * q;
        assert(2 * off <= d && -(d as int) <= 2 * off) by (nonlinear_arith)
            requires
                off == n - d * q,
                n == d * whole + r,
                0 <= r < d,
                (q == whole && 2 * r <= d) || (q == whole + 1 && 2 * r >= d),
        ;
        two_to_grows(shift, shift_of(m));
        let place = d * two_to(shift_of(m));
        assert(n * p - d * (q * p) == off * p) by (nonlinear_arith)
            requires
                off == n - d * q,
        ;
        assert(2 * (off * p) <= place && -place <= 2 * (off * p)) by (nonlinear_arith)
            requires
                2 * off <= d,
                -(d as int) <= 2 * off,
                place == d * two_to(shift_of(m)),
                two_to(shift_of(m)) >= p,
                p > 0,
                d > 0,
        ;
    } else {
        assert(d * (2 * STEP) >= 2 * d) by (nonlinear_arith)
            requires
                STEP >= 1,
        ;
        assert(n >= (2 * d) * STEP) by (nonlinear_arith)
            requires
                n >= d * (2 * STEP),
        ;
        pattern_is_close(n, 2 * d, shift + 1);
        let u = units(m);
        let t = two_to(shift_of(m));
        assert(two_to(shift + 1) == 2 * p);
        assert(n * (2 * p) - (2 * d) * u == 2 * (n * p - d * u)) by (nonlinear_arith);
        assert((2 * d) * t == 2 * (d * t)) by (nonlinear_arith);
    }
}

/// A significand in its place.
proof fn place_value(q: nat, shift: nat)
    requires
        q <= 2 * STEP,
        shift > 0 ==> q >= STEP,
    ensures
        units(shift * STEP as nat + q) == q * two_to(shift),
        shift_of(shift * STEP as nat + q) >= shift,
{
    let m = shift * STEP as nat + q;
    if m < STEP {
        if shift > 0 {
            assert(shift * STEP >= STEP) by (nonlinear_arith)
                requires
                    shift >= 1,
            ;
        }
        assert(0 * (STEP as nat) == 0);
    } else {
        if shift == 0 {
            assert(0 * (STEP as nat) == 0);
        }
        let (more, sig): (nat, nat) = if q == 2 * STEP {
            (shift + 1, STEP as nat)
        } else {
            (shift, q)
        };
        assert(m == (more + 1) * STEP + (sig - STEP)) by (nonlinear_arith)
            requires
                m == shift * STEP + q,
                (more == shift && sig == q) || (more == shift + 1 && sig == STEP && q == 2 * STEP),
        ;
        vstd::arithmetic::div_mod::lemma_fundamental_div_mod_converse(
            m as int,
            STEP as int,
            (more + 1) as int,
            sig - STEP,
        );
        assert(m / (STEP as nat) == more + 1 && m % (STEP as nat) == sig - STEP);
        assert(significand(m) == sig && shift_of(m) == more);
        if q == 2 * STEP {
            assert(two_to(shift + 1) == 2 * two_to(shift));
            assert(STEP * (2 * two_to(shift)) == (2 * STEP) * two_to(shift)) by (nonlinear_arith);
        }
    }
}

/// A result is off by at most half of its own last place.
pub proof fn rounding_is_close(n: nat, d: nat)
    requires
        d > 0,
        rounded(n, d) < INFINITE,
    ensures
        ({
            let r = rounded(n, d) as nat;
            let place = d * two_to(shift_of(r));
            -place <= 2 * (n - d * units(r)) <= place
        }),
{
    pattern_is_close(n, d, 0);
    assert(two_to(0) == 1 && n * 1 == n);
}

/// The last place of a number is small beside it.
pub proof fn places_are_small(m: nat)
    ensures
        STEP * two_to(shift_of(m)) <= units(m) || two_to(shift_of(m)) == 1,
{
    if m >= STEP {
        let (s, t) = (significand(m), two_to(shift_of(m)));
        assert(STEP * t <= s * t) by (nonlinear_arith)
            requires
                s >= STEP,
                t >= 0,
        ;
    }
}

/// A number that is not huge is no infinity when it is rounded.
pub proof fn modest_numbers_stay_finite(n: nat, d: nat)
    requires
        d > 0,
        n <= d * (0x1000_0000_0000_0000 * units_of_one()),
    ensures
        rounded(n, d) < INFINITE,
{
    let m = pattern_from(n, d, 0);
    if m >= INFINITE {
        let (u, t, one) = (units(m), two_to(shift_of(m)), units_of_one());
        pattern_is_close(n, d, 0);
        assert(n * 1 == n && two_to(0) == 1);
        places_are_small(m);
        two_to_is_positive(shift_of(m));
        two_to_is_positive(DEPTH as nat);
        if m > INFINITE {
            patterns_are_in_order(INFINITE as nat, m);
        }
        infinity_is_far();
        assert(t <= u) by {
            if t != 1 {
                assert(t <= STEP * t) by (nonlinear_arith)
                    requires
                        t >= 0,
                        STEP >= 1,
                ;
            }
        }
        assert(u <= 2 * (0x1000_0000_0000_0000 * one)) by (nonlinear_arith)
            requires
                -(d * t) <= 2 * (n - d * u),
                n <= d * (0x1000_0000_0000_0000 * one),
                t <= u,
                d > 0,
        ;
        assert(false);
    }
}

/// Where infinity begins, numbers are huge.
proof fn infinity_is_far()
    ensures
        units(INFINITE as nat) > 2 * (0x1000_0000_0000_0000 * units_of_one()),
{
    assert(INFINITE as nat / (STEP as nat) == 2_047 && INFINITE as nat % (STEP as nat) == 0);
    let far = two_to(2_046);
    two_to_sum(1_074, 972);
    two_to_grows(64, 972);
    some_powers();
    two_to_is_positive(1_074);
    let one = units_of_one();
    assert(far == one * two_to(972));
    assert(two_to(972) >= 0x1_0000_0000_0000_0000);
    assert(STEP * far > 2 * (0x1000_0000_0000_0000 * one)) by (nonlinear_arith)
        requires
            far == one * two_to(972),
            two_to(972) >= 0x1_0000_0000_0000_0000,
            one > 0,
            STEP >= 1,
    ;
}

} // verus!
