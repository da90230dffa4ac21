//! How numbers are read from text: as the doubles nearest to what is written.

use vstd::prelude::*;

use crate::double::nearest;
use crate::pattern::{
    great_numbers_have_great_patterns, pattern_from, pattern_scales, rounded, rounding_is_close,
    shift_of, two_to, two_to_grows, two_to_is_positive, two_to_sum, units, units_of_one,
    whole_numbers_are_doubles, Double, DEPTH, INFINITE, SIGN, STEP,
};
use crate::text::{decimal, digit_char, is_digit, signed_decimal, sub_chars};

verus! {

/// How many places behind the last digit the point is looked for.
const FAR_RIGHT: usize = 400;

/// How many places before the first digit the point is looked for.
const FAR_LEFT: usize = 400;

pub open spec fn digit_value(c: char) -> nat {
    if is_digit(c) {
        (c as int - '0' as int) as nat
    } else {
        0
    }
}

pub open spec fn all_digits(s: Seq<char>) -> bool {
    forall|i: int| 0 <= i < s.len() ==> is_digit(#[trigger] s[i])
}

/// The number that some digits write.
pub open spec fn digits_value(s: Seq<char>) -> nat
    decreases s.len(),
{
    if s.len() == 0 {
        0
    } else {
        10 * digits_value(s.drop_last()) + digit_value(s.last())
    }
}

/// The point, or the end, of the text stands at `p`.
pub open spec fn splits_at(s: Seq<char>, p: int) -> bool {
    &&& 0 <= p <= s.len()
    &&& all_digits(s.take(p))
    &&& p < s.len() ==> s[p] == '.' && all_digits(s.skip(p + 1))
}

/// What stands after the point at `p`.
pub open spec fn after_point(s: Seq<char>, p: int) -> Seq<char> {
    if p < s.len() {
        s.skip(p + 1)
    } else {
        Seq::empty()
    }
}

/// Digits with at most one point among them, and at least one digit.
pub open spec fn is_decimal_at(s: Seq<char>, p: int) -> bool {
    &&& splits_at(s, p)
    &&& p + after_point(s, p).len() > 0
}

/// The `n`-th power of ten.
pub open spec fn ten_to(n: nat) -> nat
    decreases n,
{
    if n == 0 {
        1
    } else {
        10 * ten_to((n - 1) as nat)
    }
}

/// The row of digits in a decimal.
pub open spec fn row_of(s: Seq<char>, p: int) -> Seq<char> {
    s.take(p) + after_point(s, p)
}

/// The pattern of the double nearest to the number of some digits with the
/// point after the first `q` of them.
pub open spec fn placed(digits: Seq<char>, q: int) -> u64 {
    let n = digits_value(digits) * units_of_one();
    if q >= digits.len() {
        rounded(n * ten_to((q - digits.len()) as nat), 1)
    } else {
        rounded(n, ten_to((digits.len() - q) as nat))
    }
}

/// The pattern of the double nearest to what a decimal with an exponent
/// writes.
pub open spec fn scaled(s: Seq<char>, e: int) -> Option<u64> {
    if exists|p: int| is_decimal_at(s, p) {
        let p = choose|p: int| is_decimal_at(s, p);
        Some(placed(row_of(s, p), p + e))
    } else {
        None
    }
}

/// The number that a text writes, if it writes one: digits with at most one
/// point among them.
pub open spec fn number(s: Seq<char>) -> Option<Double> {
    match scaled(s, 0) {
        Some(bits) => Some(Double { bits }),
        None => None,
    }
}

pub open spec fn is_sign(c: char) -> bool {
    c == '+' || c == '-'
}

/// What follows the sign, if there is one.
pub open spec fn unsigned(s: Seq<char>) -> Seq<char> {
    if s.len() > 0 && is_sign(s[0]) {
        s.skip(1)
    } else {
        s
    }
}

pub open spec fn is_negative(s: Seq<char>) -> bool {
    s.len() > 0 && s[0] == '-'
}

pub open spec fn is_mark(c: char) -> bool {
    c == 'e' || c == 'E'
}

/// The exponent, or the end, of the text starts at `m`.
pub open spec fn is_marked_at(s: Seq<char>, m: int) -> bool {
    &&& 0 <= m <= s.len()
    &&& forall|i: int| 0 <= i < m ==> !is_mark(#[trigger] s[i])
    &&& m < s.len() ==> is_mark(s[m])
}

/// Where the exponent, or the end, of the text starts.
pub open spec fn mark_of(s: Seq<char>) -> int {
    choose|m: int| is_marked_at(s, m)
}

/// The exponent that a text writes: digits, with or without a sign.
pub open spec fn exponent(s: Seq<char>) -> Option<int> {
    let digits = unsigned(s);
    if digits.len() == 0 || !all_digits(digits) {
        None
    } else if is_negative(s) {
        Some(-digits_value(digits))
    } else {
        Some(digits_value(digits) as int)
    }
}

/// The exponent that starts at `m`; without one it is zero.
pub open spec fn exponent_at(s: Seq<char>, m: int) -> Option<int> {
    if m < s.len() {
        exponent(s.skip(m + 1))
    } else {
        Some(0)
    }
}

/// The number that a text writes, if it writes one: a decimal, with or without
/// a sign before and an exponent behind.
pub open spec fn signed_number(s: Seq<char>) -> Option<Double> {
    let u = unsigned(s);
    let m = mark_of(u);
    match exponent_at(u, m) {
        None => None,
        Some(e) => match scaled(u.take(m), e) {
            None => None,
            Some(bits) => Some(
                Double {
                    bits: if is_negative(s) {
                        (bits + SIGN) as u64
                    } else {
                        bits
                    },
                },
            ),
        },
    }
}

proof fn ten_to_is_positive(n: nat)
    ensures
        ten_to(n) > 0,
    decreases n,
{
    if n > 0 {
        ten_to_is_positive((n - 1) as nat);
    }
}

proof fn ten_to_sum(a: nat, b: nat)
    ensures
        ten_to(a + b) == ten_to(a) * ten_to(b),
    decreases a,
{
    if a == 0 {
        assert(1 * ten_to(b) == ten_to(b));
    } else {
        ten_to_sum((a - 1) as nat, b);
        assert(10 * (ten_to((a - 1) as nat) * ten_to(b)) == ten_to(a) * ten_to(b)) by (nonlinear_arith)
            requires
                ten_to(a) == 10 * ten_to((a - 1) as nat),
        ;
    }
}

/// Ten is more than eight.
proof fn tens_outgrow_eights(n: nat)
    ensures
        ten_to(n) >= two_to(3 * n),
    decreases n,
{
    if n > 0 {
        let m = (n - 1) as nat;
        tens_outgrow_eights(m);
        two_to_sum(3, 3 * m);
        reveal_with_fuel(two_to, 4);
        assert(two_to(3) == 8);
        assert(two_to(3 * n) == 8 * two_to(3 * m));
    }
}

/// The number that the lowest `i` of some digits write, the lowest first.
spec fn low(v: Seq<u64>, i: int) -> nat
    decreases i,
{
    if i <= 0 {
        0
    } else {
        low(v, i - 1) + v[i - 1] as nat * ten_to((i - 1) as nat)
    }
}

/// The number that the digits from the `i`-th on write, the lowest first.
spec fn high(v: Seq<u64>, i: int) -> nat
    decreases v.len() - i,
{
    if i >= v.len() {
        0
    } else {
        v[i] as nat + 10 * high(v, i + 1)
    }
}

spec fn is_row(v: Seq<u64>) -> bool {
    forall|i: int| 0 <= i < v.len() ==> (#[trigger] v[i]) <= 9
}

/// The number that some digits write, the lowest first.
spec fn row_value(v: Seq<u64>) -> nat {
    low(v, v.len() as int)
}

proof fn low_agrees(v: Seq<u64>, w: Seq<u64>, i: int)
    requires
        forall|j: int| 0 <= j < i ==> v[j] == w[j],
    ensures
        low(v, i) == low(w, i),
    decreases i,
{
    if i > 0 {
        low_agrees(v, w, i - 1);
    }
}

proof fn low_is_small(v: Seq<u64>, i: int)
    requires
        is_row(v),
        0 <= i <= v.len(),
    ensures
        low(v, i) < ten_to(i as nat),
        (forall|j: int| 0 <= j < i ==> v[j] == 0) <==> low(v, i) == 0,
    decreases i,
{
    if i > 0 {
        low_is_small(v, i - 1);
        let p = ten_to((i - 1) as nat);
        let d = v[i - 1] as nat;
        ten_to_is_positive((i - 1) as nat);
        assert(0 <= d * p <= 9 * p) by (nonlinear_arith)
            requires
                d <= 9,
        ;
        if d > 0 {
            assert(d * p >= p) by (nonlinear_arith)
                requires
                    d >= 1,
            ;
        } else {
            assert(0 * p == 0);
        }
    }
}

/// A number is what its low and its high digits write.
proof fn low_and_high(v: Seq<u64>, i: int)
    requires
        0 <= i <= v.len(),
    ensures
        row_value(v) == low(v, i) + ten_to(i as nat) * high(v, i),
    decreases v.len() - i,
{
    let p = ten_to(i as nat);
    if i < v.len() {
        low_and_high(v, i + 1);
        let d = v[i] as nat;
        let h = high(v, i + 1);
        assert(low(v, i + 1) == low(v, i) + d * p);
        assert(ten_to((i + 1) as nat) == 10 * p);
        assert(d * p + (10 * p) * h == p * (d + 10 * h)) by (nonlinear_arith);
    } else {
        assert(p * 0 == 0);
    }
}

/// Splits a number at its `k`-th digit.
proof fn split_row(v: Seq<u64>, k: int)
    requires
        is_row(v),
        0 <= k <= v.len(),
    ensures
        row_value(v) / ten_to(k as nat) == high(v, k),
        row_value(v) % ten_to(k as nat) == low(v, k),
{
    low_and_high(v, k);
    low_is_small(v, k);
    let p = ten_to(k as nat);
    assert(p * high(v, k) == high(v, k) * p) by (nonlinear_arith);
    vstd::arithmetic::div_mod::lemma_fundamental_div_mod_converse(
        row_value(v) as int,
        p as int,
        high(v, k) as int,
        low(v, k) as int,
    );
}

/// Multiplies a number by a small one.
fn multiply(v: &mut Vec<u64>, m: u64)
    requires
        is_row(old(v)@),
        m <= 9,
    ensures
        is_row(final(v)@),
        final(v)@.len() >= old(v)@.len(),
        row_value(final(v)@) == m * row_value(old(v)@),
{
    let ghost was = v@;
    let n: usize = v.len();
    let mut carry: u64 = 0;
    let mut i: usize = 0;
    proof {
        assert(m * 0 == 0);
        assert(0 * ten_to(0) == 0);
    }
    while i < n
        invariant
            is_row(was),
            is_row(v@),
            m <= 9,
            n == was.len(),
            v@.len() == n,
            i <= n,
            carry <= 8,
            forall|j: int| i <= j < n ==> v@[j] == was[j],
            low(v@, i as int) + carry * ten_to(i as nat) == m * low(was, i as int),
        decreases n - i,
    {
        let digit: u64 = v[i];
        assert(digit * m <= 81) by (nonlinear_arith)
            requires
                digit <= 9,
                m <= 9,
        ;
        let d: u64 = digit * m + carry;
        let ghost before = v@;
        v.set(i, d % 10);
        proof {
            let p = ten_to(i as nat);
            low_agrees(before, v@, i as int);
            let (a, b) = ((d % 10) as nat, (d / 10) as nat);
            let (l, w) = (low(was, i as int), low(before, i as int));
            let (c, g) = (carry as nat, digit as nat);
            assert(w + a * p + b * (10 * p) == m * (l + g * p)) by (nonlinear_arith)
                requires
                    w + c * p == m * l,
                    a + 10 * b == g * m + c,
            ;
        }
        carry = d / 10;
        i = i + 1;
    }
    if carry > 0 {
        let ghost before = v@;
        v.push(carry);
        proof {
            low_agrees(before, v@, n as int);
        }
    } else {
        assert(0 * ten_to(n as nat) == 0);
    }
}

/// What the digits from the `k`-th on write, as long as it is small.
fn upper_part(v: &Vec<u64>, k: usize) -> (r: u64)
    requires
        is_row(v@),
        k <= v@.len(),
    ensures
        r == high(v@, k as int) || (r >= 2 * STEP && high(v@, k as int) >= 2 * STEP),
        r < 40 * STEP,
{
    let mut i: usize = v.len();
    let mut r: u64 = 0;
    while i > k
        invariant
            is_row(v@),
            k <= i <= v@.len(),
            r == high(v@, i as int) || (r >= 2 * STEP && high(v@, i as int) >= 2 * STEP),
            r < 40 * STEP,
        decreases i,
    {
        let d: u64 = v[i - 1];
        if r < 2 * STEP {
            r = 10 * r + d;
        }
        i = i - 1;
    }
    r
}

/// Whether the lowest `k` digits are all zero.
fn no_digits(v: &Vec<u64>, k: usize) -> (r: bool)
    requires
        is_row(v@),
        k <= v@.len(),
    ensures
        r == (low(v@, k as int) == 0),
{
    proof {
        low_is_small(v@, k as int);
    }
    let mut i: usize = 0;
    while i < k
        invariant
            is_row(v@),
            k <= v@.len(),
            i <= k,
            forall|j: int| 0 <= j < i ==> v@[j] == 0,
        decreases k - i,
    {
        if v[i] != 0 {
            proof {
                low_is_small(v@, k as int);
            }
            return false;
        }
        i = i + 1;
    }
    true
}

/// The whole number nearest to one with `k` digits after the point.
fn nearest_whole(v: &Vec<u64>, k: usize, upper: u64) -> (r: u64)
    requires
        is_row(v@),
        k <= v@.len(),
        upper == high(v@, k as int),
        upper < 40 * STEP,
    ensures
        r == nearest(row_value(v@), ten_to(k as nat)),
        r <= upper + 1,
{
    proof {
        split_row(v@, k as int);
    }
    if k == 0 {
        return upper;
    }
    let ghost p = ten_to((k - 1) as nat);
    let first: u64 = v[k - 1];
    let rest_is_zero: bool = no_digits(v, k - 1);
    proof {
        low_is_small(v@, k - 1);
        let rest = low(v@, k - 1);
        let f = first as nat;
        assert(low(v@, k as int) == rest + f * p);
        assert(ten_to(k as nat) == 10 * p);
        assert(2 * (rest + f * p) < 10 * p <==> f < 5) by (nonlinear_arith)
            requires
                rest < p,
                f <= 9,
        ;
        assert(2 * (rest + f * p) == 10 * p <==> f == 5 && rest == 0) by (nonlinear_arith)
            requires
                rest < p,
                f <= 9,
        ;
    }
    if first < 5 || (first == 5 && rest_is_zero && upper % 2 == 0) {
        upper
    } else {
        upper + 1
    }
}

/// The pattern of the double nearest to a number with `k` digits after the
/// point.
fn row_pattern(row: Vec<u64>, k: usize) -> (r: u64)
    requires
        is_row(row@),
        k <= row@.len(),
    ensures
        r == rounded(row_value(row@) * units_of_one(), ten_to(k as nat)),
{
    let mut v = row;
    let ghost given = row_value(row@);
    let mut i: u32 = 0;
    assert(given * 1 == given);
    while i < DEPTH
        invariant
            i <= DEPTH,
            is_row(v@),
            k <= v@.len(),
            row_value(v@) == given * two_to(i as nat),
        decreases DEPTH - i,
    {
        multiply(&mut v, 2);
        i = i + 1;
        assert(2 * (given * two_to((i - 1) as nat)) == given * two_to(i as nat)) by (nonlinear_arith)
            requires
                two_to(i as nat) == 2 * two_to((i - 1) as nat),
        ;
    }
    let ghost start = row_value(v@);
    let ghost den = ten_to(k as nat);
    let mut scale: usize = k;
    let mut shift: u64 = 0;
    let mut upper: u64 = upper_part(&v, scale);
    proof {
        ten_to_is_positive(k as nat);
        row_reaches(v@, scale as int);
    }
    while upper >= 2 * STEP
        invariant
            is_row(v@),
            scale <= v@.len(),
            shift <= 2_046,
            upper == high(v@, scale as int) || (upper >= 2 * STEP && high(v@, scale as int) >= 2
                * STEP),
            upper < 40 * STEP,
            upper >= 2 * STEP <==> row_value(v@) >= ten_to(scale as nat) * (2 * STEP),
            den > 0,
            pattern_from(start, den, 0) == pattern_from(
                row_value(v@),
                ten_to(scale as nat),
                shift as nat,
            ),
            start == given * units_of_one(),
            den == ten_to(k as nat),
            given == row_value(row@),
        decreases 2_046 - shift,
    {
        let ghost n = row_value(v@);
        let ghost d = ten_to(scale as nat);
        proof {
            ten_to_is_positive(scale as nat);
            assert(n >= (d * STEP) * two_to(0)) by (nonlinear_arith)
                requires
                    n >= d * (2 * STEP),
                    two_to(0) == 1,
            ;
            great_numbers_have_great_patterns(n, d, 0, shift as nat);
        }
        if shift >= 2_046 {
            assert((shift + 0 + 1) * STEP == 2_047 * STEP);
            assert(2_047 * STEP == INFINITE);
            return INFINITE;
        }
        multiply(&mut v, 5);
        if v.len() == scale {
            let ghost before = v@;
            v.push(0);
            proof {
                low_agrees(before, v@, scale as int);
                assert(0 * ten_to(scale as nat) == 0);
            }
        }
        scale = scale + 1;
        shift = shift + 1;
        proof {
            pattern_scales(n, 2 * d, 5, shift as nat);
            assert(5 * (2 * d) == ten_to(scale as nat));
        }
        upper = upper_part(&v, scale);
        proof {
            row_reaches(v@, scale as int);
        }
    }
    let q: u64 = nearest_whole(&v, scale, upper);
    let wide: u128 = shift as u128 * STEP as u128 + q as u128;
    if wide < INFINITE as u128 {
        wide as u64
    } else {
        INFINITE
    }
}

/// The upper part of a number tells whether the number reaches a limit.
proof fn row_reaches(v: Seq<u64>, k: int)
    requires
        is_row(v),
        0 <= k <= v.len(),
    ensures
        high(v, k) >= 2 * STEP <==> row_value(v) >= ten_to(k as nat) * (2 * STEP),
{
    low_and_high(v, k);
    low_is_small(v, k);
    let p = ten_to(k as nat);
    let h = high(v, k);
    let l = low(v, k);
    assert(h >= 2 * STEP <==> l + p * h >= p * (2 * STEP)) by (nonlinear_arith)
        requires
            l < p,
            l >= 0,
            h >= 0,
    ;
}

fn digit_number(c: char) -> (d: u64)
    requires
        is_digit(c),
    ensures
        d == digit_value(c),
        d <= 9,
{
    match c {
        '0' => 0,
        '1' => 1,
        '2' => 2,
        '3' => 3,
        '4' => 4,
        '5' => 5,
        '6' => 6,
        '7' => 7,
        '8' => 8,
        _ => 9,
    }
}

/// The first digit of a number counts for what its place is worth.
proof fn first_digit(s: Seq<char>)
    requires
        s.len() > 0,
    ensures
        digits_value(s) == digit_value(s[0]) * ten_to((s.len() - 1) as nat) + digits_value(s.skip(1)),
    decreases s.len(),
{
    let c = digit_value(s[0]);
    if s.len() == 1 {
        assert(s.drop_last() =~= Seq::empty());
        assert(s.skip(1) =~= Seq::empty());
        assert(c * 1 == c);
    } else {
        let front = s.drop_last();
        first_digit(front);
        assert(s.skip(1).drop_last() =~= front.skip(1));
        assert(s.skip(1).last() == s.last());
        let p = ten_to((front.len() - 1) as nat);
        assert(10 * (c * p) == c * ten_to((s.len() - 1) as nat)) by (nonlinear_arith)
            requires
                ten_to((s.len() - 1) as nat) == 10 * p,
        ;
    }
}

/// The pattern of some digits with the point after the first `q` of them,
/// where that is not far off.
fn pattern_placed(digits: &Vec<char>, q: i128) -> (r: u64)
    requires
        all_digits(digits@),
        -FAR_LEFT <= q <= digits@.len() + FAR_RIGHT,
    ensures
        r == placed(digits@, q as int),
{
    let ghost s = digits@;
    let n: usize = digits.len();
    let mut v: Vec<u64> = Vec::new();
    let mut at: i128 = n as i128;
    while at < q
        invariant
            n == s.len(),
            at >= n,
            q > n ==> at <= q,
            q <= n ==> at == n,
            is_row(v@),
            v@.len() == at - n,
            row_value(v@) == 0,
        decreases q - at,
    {
        let ghost before = v@;
        v.push(0);
        at = at + 1;
        proof {
            low_agrees(before, v@, before.len() as int);
            assert(0 * ten_to(before.len() as nat) == 0);
        }
    }
    let ghost z = v@.len();
    let mut i: usize = n;
    proof {
        assert(s.skip(n as int) =~= Seq::empty());
        assert(ten_to(z) * 0 == 0);
    }
    while i > 0
        invariant
            s == digits@,
            n == s.len(),
            i <= n,
            all_digits(s),
            is_row(v@),
            v@.len() == z + (n - i),
            row_value(v@) == ten_to(z) * digits_value(s.skip(i as int)),
        decreases i,
    {
        let ghost before = v@;
        let d: u64 = digit_number(digits[i - 1]);
        v.push(d);
        i = i - 1;
        proof {
            let rest = s.skip(i as int);
            low_agrees(before, v@, before.len() as int);
            first_digit(rest);
            assert(rest.skip(1) =~= s.skip(i + 1));
            let place = (n - i - 1) as nat;
            ten_to_sum(z, place);
            let (a, b, c) = (ten_to(z), ten_to(place), digits_value(s.skip(i + 1)));
            assert(a * c + d * (a * b) == a * (d * b + c)) by (nonlinear_arith);
        }
    }
    assert(s.skip(0) =~= s);
    let ghost filled = v@;
    if q >= n as i128 {
        proof {
            assert(v@.len() >= 0);
            let (a, b, u) = (digits_value(s), ten_to(z), units_of_one());
            assert((b * a) * u == (a * u) * b) by (nonlinear_arith);
        }
        return row_pattern(v, 0);
    }
    assert(z == 0 && ten_to(0) * digits_value(s) == digits_value(s)) by {
        assert(1 * digits_value(s) == digits_value(s));
    }
    let mut scale: i128 = v.len() as i128;
    let aim: i128 = n as i128 - q;
    while scale < aim
        invariant
            scale == v@.len(),
            scale <= aim || scale == n,
            is_row(v@),
            row_value(v@) == digits_value(s),
        decreases aim - scale,
    {
        let ghost before = v@;
        v.push(0);
        scale = scale + 1;
        proof {
            low_agrees(before, v@, before.len() as int);
            assert(0 * ten_to(before.len() as nat) == 0);
        }
    }
    let length: usize = v.len();
    assert(0 < aim <= length);
    row_pattern(v, aim as usize)
}

/// A place, but not far off.
spec fn near_place(length: nat, q: int) -> int {
    if q < -FAR_LEFT {
        -FAR_LEFT
    } else if q > length + FAR_RIGHT {
        length + FAR_RIGHT
    } else {
        q
    }
}

proof fn digits_are_few(s: Seq<char>)
    requires
        all_digits(s),
    ensures
        digits_value(s) < ten_to(s.len()),
    decreases s.len(),
{
    if s.len() > 0 {
        assert forall|i: int| 0 <= i < s.drop_last().len() implies is_digit(
            #[trigger] s.drop_last()[i],
        ) by {
            assert(is_digit(s[i]));
        }
        digits_are_few(s.drop_last());
        assert(is_digit(s[s.len() - 1]));
    }
}

/// What stands far behind the point is nothing.
proof fn far_left_is_nothing(d: Seq<char>, q: int)
    requires
        all_digits(d),
        q <= -FAR_LEFT,
    ensures
        placed(d, q) == 0,
{
    let value = digits_value(d);
    let one = units_of_one();
    let n = value * one;
    let den = ten_to((d.len() - q) as nat);
    let rest = ten_to((-q) as nat);
    two_to_is_positive(DEPTH as nat);
    digits_are_few(d);
    ten_to_sum(d.len(), (-q) as nat);
    tens_outgrow_eights((-q) as nat);
    two_to_grows((DEPTH + 1) as nat, (3 * -q) as nat);
    assert(rest >= 2 * one);
    ten_to_is_positive(d.len());
    assert(2 * n < den) by (nonlinear_arith)
        requires
            n == value * one,
            value < ten_to(d.len()),
            den == ten_to(d.len()) * rest,
            rest >= 2 * one,
            one > 0,
    ;
    assert(n < den * (2 * STEP)) by (nonlinear_arith)
        requires
            2 * n < den,
            STEP >= 1,
            n >= 0,
    ;
    vstd::arithmetic::div_mod::lemma_fundamental_div_mod_converse(
        n as int,
        den as int,
        0,
        n as int,
    );
}

/// What stands far before the point is infinite, unless it is nothing.
proof fn far_right_is_infinite(d: Seq<char>, q: int)
    requires
        q >= d.len() + FAR_RIGHT,
    ensures
        placed(d, q) == if digits_value(d) == 0 {
            0
        } else {
            INFINITE
        },
{
    let value = digits_value(d);
    let one = units_of_one();
    let places = (q - d.len()) as nat;
    let n = (value * one) * ten_to(places);
    if value == 0 {
        assert(0 * one == 0 && 0 * ten_to(places) == 0);
    } else {
        tens_outgrow_eights(places);
        two_to_grows(1_200, 3 * places);
        two_to_sum(DEPTH as nat, 1_200);
        two_to_sum(52, 2_222);
        assert(two_to(52) == STEP) by {
            reveal_with_fuel(two_to, 53);
        }
        two_to_grows(2_046, 2_222);
        assert(n >= one * two_to(1_200)) by (nonlinear_arith)
            requires
                n == (value * one) * ten_to(places),
                value >= 1,
                ten_to(places) >= two_to(1_200),
        ;
        assert(n >= (1 * STEP) * two_to(2_046)) by (nonlinear_arith)
            requires
                n >= STEP * two_to(2_222),
                two_to(2_222) >= two_to(2_046),
        ;
        great_numbers_have_great_patterns(n, 1, 2_046, 0);
        assert((0 + 2_046 + 1) * STEP == INFINITE);
    }
}

/// How far off the point is makes no difference.
proof fn far_places_are_one(d: Seq<char>, q: int)
    requires
        all_digits(d),
    ensures
        placed(d, q) == placed(d, near_place(d.len(), q)),
{
    if q < -FAR_LEFT {
        far_left_is_nothing(d, q);
        far_left_is_nothing(d, -FAR_LEFT as int);
    } else if q > d.len() + FAR_RIGHT {
        far_right_is_infinite(d, q);
        far_right_is_infinite(d, d.len() + FAR_RIGHT);
    }
}

/// Where the point, or the end, of a decimal stands. `None` where the text is
/// no decimal.
fn find_point(v: &Vec<char>) -> (r: Option<usize>)
    ensures
        match r {
            Some(p) => is_decimal_at(v@, p as int) && forall|q: int|
                is_decimal_at(v@, q) ==> q == p,
            None => forall|q: int| !is_decimal_at(v@, q),
        },
{
    let ghost s = v@;
    let n: usize = v.len();
    let mut p: usize = 0;
    while p < n && digit_char(v[p])
        invariant
            s == v@,
            n == s.len(),
            p <= n,
            all_digits(s.take(p as int)),
        decreases n - p,
    {
        assert(s.take(p + 1) =~= s.take(p as int).push(s[p as int]));
        p = p + 1;
    }
    let ghost stop = p as int;
    proof {
        assert forall|q: int| splits_at(s, q) implies q == p by {
            if q < p {
                assert(is_digit(s.take(stop)[q]));
            } else if q > p {
                assert(is_digit(s.take(q)[stop]));
            }
        }
    }
    if p < n && v[p] != '.' {
        return None;
    }
    let mut i: usize = if p < n { p + 1 } else { n };
    let ghost start = i as int;
    while i < n && digit_char(v[i])
        invariant
            s == v@,
            n == s.len(),
            start <= i <= n,
            forall|j: int| start <= j < i ==> is_digit(#[trigger] s[j]),
        decreases n - i,
    {
        i = i + 1;
    }
    if i < n {
        assert(s.skip(stop + 1)[i - start] == s[i as int]);
        return None;
    }
    assert(splits_at(s, stop));
    if n == 0 || (n == 1 && p == 0) {
        return None;
    }
    Some(p)
}

proof fn mark_is_unique(s: Seq<char>, m: int)
    requires
        is_marked_at(s, m),
    ensures
        mark_of(s) == m,
{
    let n = mark_of(s);
    assert(is_marked_at(s, n));
    if n < m {
        assert(!is_mark(s[n]));
    } else if m < n {
        assert(!is_mark(s[m]));
    }
}

/// What an exponent may be held at: it moves any point far off.
const FAR: i128 = 1_000_000_000_000_000_000_000_000_000_000;

/// Reads an exponent; one that moves any point far off is held there.
fn read_exponent(v: &Vec<char>) -> (r: Option<i128>)
    ensures
        match (r, exponent(v@)) {
            (Some(x), Some(e)) => -20 * FAR <= x <= 20 * FAR && (x == e || (x >= FAR && e >= FAR)
                || (x <= -FAR && e <= -FAR)),
            (None, None) => true,
            _ => false,
        },
{
    let ghost s = v@;
    let n: usize = v.len();
    let start: usize = if n > 0 && (v[0] == '+' || v[0] == '-') { 1 } else { 0 };
    let ghost digits = unsigned(s);
    assert(digits =~= s.skip(start as int));
    if start == n {
        return None;
    }
    let mut i: usize = start;
    let mut x: i128 = 0;
    assert(digits.take(0) =~= Seq::empty());
    while i < n
        invariant
            s == v@,
            n == s.len(),
            start <= i <= n,
            start == 0 || start == 1,
            digits == s.skip(start as int),
            digits == unsigned(s),
            all_digits(digits.take(i - start)),
            0 <= x <= 20 * FAR,
            x == digits_value(digits.take(i - start)) || (x >= FAR && digits_value(
                digits.take(i - start),
            ) >= FAR),
        decreases n - i,
    {
        let ghost k = i - start;
        assert(digits[k] == s[i as int]);
        if !digit_char(v[i]) {
            assert(!all_digits(digits)) by {
                assert(!is_digit(digits[k]));
            }
            return None;
        }
        proof {
            assert(digits.take(k + 1).drop_last() =~= digits.take(k));
            assert(digits.take(k + 1) =~= digits.take(k).push(digits[k]));
        }
        if x < FAR {
            x = x * 10 + digit_number(v[i]) as i128;
        }
        i = i + 1;
    }
    assert(digits.take(i - start) =~= digits);
    Some(
        if start == 1 && v[0] == '-' {
            -x
        } else {
            x
        },
    )
}

/// The digits of a decimal are digits.
proof fn row_is_digits(s: Seq<char>, p: int)
    requires
        is_decimal_at(s, p),
    ensures
        all_digits(row_of(s, p)),
        row_of(s, p).len() <= s.len(),
{
    let row = row_of(s, p);
    assert forall|i: int| 0 <= i < row.len() implies is_digit(#[trigger] row[i]) by {
        if i < p {
            assert(is_digit(s.take(p)[i]));
        } else {
            assert(is_digit(after_point(s, p)[i - p]));
        }
    }
}

/// Exponents that move any point far off to the same side are one.
proof fn far_exponents_are_one(s: Seq<char>, e: int, f: int)
    requires
        s.len() < FAR - FAR_RIGHT,
        e == f || (e >= FAR && f >= FAR) || (e <= -FAR && f <= -FAR),
    ensures
        scaled(s, e) == scaled(s, f),
{
    if exists|p: int| is_decimal_at(s, p) {
        let p = choose|p: int| is_decimal_at(s, p);
        assert(is_decimal_at(s, p));
        row_is_digits(s, p);
        far_places_are_one(row_of(s, p), p + e);
        far_places_are_one(row_of(s, p), p + f);
    }
}

/// The pattern of the double nearest to what a decimal with an exponent
/// writes.
fn read_scaled(v: &Vec<char>, e: i128) -> (r: Option<u64>)
    requires
        -20 * FAR <= e <= 20 * FAR,
    ensures
        r == scaled(v@, e as int),
{
    let ghost d = v@;
    let point: usize = match find_point(v) {
        Some(p) => p,
        None => {
            return None;
        },
    };
    let length: usize = v.len();
    let mut digits = sub_chars(v, 0, point);
    let mut after = sub_chars(v, if point < length { point + 1 } else { length }, length);
    proof {
        assert(digits@ =~= d.take(point as int));
        assert(after@ =~= after_point(d, point as int));
        assert(is_decimal_at(d, choose|q: int| is_decimal_at(d, q)));
    }
    digits.append(&mut after);
    let ghost row = row_of(d, point as int);
    proof {
        assert(digits@ =~= row);
        row_is_digits(d, point as int);
    }
    let far: i128 = point as i128 + e;
    let right: i128 = digits.len() as i128 + FAR_RIGHT as i128;
    let left: i128 = -(FAR_LEFT as i128);
    let q: i128 = if far < left {
        left
    } else if far > right {
        right
    } else {
        far
    };
    proof {
        far_places_are_one(row, far as int);
    }
    Some(pattern_placed(&digits, q))
}

/// Reads a number: digits with at most one point among them.
pub fn read_number(v: &Vec<char>) -> (r: Option<Double>)
    ensures
        r == number(v@),
{
    match read_scaled(v, 0) {
        Some(bits) => Some(Double { bits }),
        None => None,
    }
}

/// Reads a number: a decimal, with or without a sign before and an exponent
/// behind.
pub fn read_signed_number(v: &Vec<char>) -> (r: Option<Double>)
    ensures
        r == signed_number(v@),
{
    let ghost s = v@;
    let n: usize = v.len();
    let negative: bool = n > 0 && v[0] == '-';
    let start: usize = if n > 0 && (v[0] == '+' || v[0] == '-') { 1 } else { 0 };
    let ghost u = unsigned(s);
    assert(u =~= s.skip(start as int));
    let mut m: usize = start;
    while m < n && v[m] != 'e' && v[m] != 'E'
        invariant
            s == v@,
            n == s.len(),
            start <= m <= n,
            u == s.skip(start as int),
            forall|i: int| 0 <= i < m - start ==> !is_mark(#[trigger] u[i]),
        decreases n - m,
    {
        assert(u[m - start] == s[m as int]);
        m = m + 1;
    }
    let ghost mark = m - start;
    proof {
        if m < n {
            assert(u[mark] == s[m as int]);
        }
        mark_is_unique(u, mark);
    }
    let e: i128 = if m < n {
        let text = sub_chars(v, m + 1, n);
        assert(text@ =~= u.skip(mark + 1));
        match read_exponent(&text) {
            Some(e) => e,
            None => {
                return None;
            },
        }
    } else {
        0
    };
    let decimal = sub_chars(v, start, m);
    proof {
        assert(decimal@ =~= u.take(mark));
        far_exponents_are_one(decimal@, e as int, exponent_at(u, mark)->0);
    }
    match read_scaled(&decimal, e) {
        None => None,
        Some(bits) => Some(
            Double {
                bits: if negative {
                    bits + SIGN
                } else {
                    bits
                },
            },
        ),
    }
}

/// Without a sign and an exponent nothing but the digits counts.
pub proof fn plain_numbers_are_read_alike(s: Seq<char>)
    requires
        forall|i: int| 0 <= i < s.len() ==> !is_mark(#[trigger] s[i]),
        s.len() > 0 ==> !is_sign(s[0]),
    ensures
        signed_number(s) == number(s),
{
    mark_is_unique(s, s.len() as int);
    assert(s.take(s.len() as int) =~= s);
}

/// The digits of a number write that number.
pub proof fn digits_write_their_number(n: nat)
    ensures
        all_digits(decimal(n)),
        decimal(n).len() > 0,
        digits_value(decimal(n)) == n,
    decreases n,
{
    if n >= 10 {
        digits_write_their_number(n / 10);
        let d = decimal(n);
        assert(d.drop_last() =~= decimal(n / 10));
        assert forall|i: int| 0 <= i < d.len() implies is_digit(#[trigger] d[i]) by {
            if i < d.len() - 1 {
                assert(is_digit(decimal(n / 10)[i]));
            }
        }
    } else {
        let d = decimal(n);
        assert(d.drop_last() =~= Seq::empty());
        assert(digits_value(Seq::empty()) == 0);
    }
}

/// Digits alone have their point at the end.
proof fn digits_split_at_the_end(s: Seq<char>)
    requires
        all_digits(s),
        s.len() > 0,
    ensures
        scaled(s, 0) == Some(placed(s, s.len() as int)),
{
    let n = s.len() as int;
    assert(s.take(n) =~= s);
    assert(is_decimal_at(s, n));
    let p = choose|p: int| is_decimal_at(s, p);
    assert(is_decimal_at(s, p));
    if p < n {
        assert(is_digit(s[p]));
    }
    assert(row_of(s, p) =~= s);
}

/// A whole number that is written out is read back as that number, as long as
/// it has no more bits than a double.
pub proof fn written_numbers_are_read_back(n: nat)
    requires
        n < 2 * STEP,
    ensures
        number(decimal(n)) is Some,
        units(number(decimal(n))->0.bits as nat) == n * units_of_one(),
        signed_number(decimal(n)) == number(decimal(n)),
{
    let s = decimal(n);
    digits_write_their_number(n);
    digits_split_at_the_end(s);
    whole_numbers_are_doubles(n);
    assert(ten_to(0) == 1);
    assert(n * units_of_one() * 1 == n * units_of_one());
    assert forall|i: int| 0 <= i < s.len() implies !is_mark(#[trigger] s[i]) by {
        assert(is_digit(s[i]));
    }
    assert(is_digit(s[0]));
    plain_numbers_are_read_alike(s);
}

/// A decimal is read as the double nearest to it: with `k` digits behind the
/// point, ten to the `k` of what is read differs from what its digits write
/// by at most half a last place.
pub proof fn decimals_are_read_to_the_nearest(whole: Seq<char>, part: Seq<char>)
    requires
        all_digits(whole),
        all_digits(part),
        whole.len() + part.len() > 0,
    ensures
        ({
            let s = whole + seq!['.'] + part;
            let bits = number(s)->0.bits;
            let n = digits_value(whole + part) * units_of_one();
            let d = ten_to(part.len());
            &&& number(s) is Some
            &&& bits < INFINITE ==> {
                let off = n - d * units(bits as nat);
                let place = d * two_to(shift_of(bits as nat));
                -place <= 2 * off <= place
            }
        }),
{
    let s = whole + seq!['.'] + part;
    let n = whole.len() as int;
    assert(s.take(n) =~= whole);
    assert(s.skip(n + 1) =~= part);
    assert(is_decimal_at(s, n));
    let p = choose|p: int| is_decimal_at(s, p);
    assert(is_decimal_at(s, p));
    if p < n {
        assert(is_digit(whole[p]));
        assert(s[p] == whole[p]);
    } else if p > n {
        assert(s.take(p)[n] == '.');
        assert(is_digit(s.take(p)[n]));
    }
    assert(row_of(s, p) =~= whole + part);
    let row = whole + part;
    let m = digits_value(row) * units_of_one();
    powers_of_ten_are_positive(part.len());
    if part.len() == 0 {
        assert(ten_to(0) == 1);
        assert(m * 1 == m);
    }
    if number(s)->0.bits < INFINITE {
        rounding_is_close(m, ten_to(part.len()));
    }
}

proof fn powers_of_ten_are_positive(n: nat)
    ensures
        ten_to(n) > 0,
    decreases n,
{
    if n > 0 {
        powers_of_ten_are_positive((n - 1) as nat);
    }
}

/// A sign before a number changes its sign and nothing else.
pub proof fn signs_change_the_sign_alone(s: Seq<char>)
    requires
        s.len() > 0 ==> !is_sign(s[0]),
    ensures
        signed_number(seq!['+'] + s) == signed_number(s),
        signed_number(s) is None <==> signed_number(seq!['-'] + s) is None,
        signed_number(s) is Some ==> signed_number(seq!['-'] + s)->0.bits == (
        signed_number(s)->0.bits + SIGN) as u64,
{
    let (plus, minus) = (seq!['+'] + s, seq!['-'] + s);
    assert(plus.skip(1) =~= s);
    assert(minus.skip(1) =~= s);
    assert(unsigned(plus) == s && unsigned(minus) == s && unsigned(s) == s);
}

/// A number with a sign is written as a minus, where it is negative, and the
/// digits of its size.
pub proof fn signed_digits_write_their_number(n: int)
    ensures
        n >= 0 ==> all_digits(signed_decimal(n)) && digits_value(signed_decimal(n)) == n,
        n < 0 ==> {
            &&& signed_decimal(n)[0] == '-'
            &&& all_digits(signed_decimal(n).skip(1))
            &&& digits_value(signed_decimal(n).skip(1)) == -n
        },
{
    if n >= 0 {
        digits_write_their_number(n as nat);
    } else {
        digits_write_their_number((-n) as nat);
        assert(signed_decimal(n).skip(1) =~= decimal((-n) as nat));
    }
}

} // verus!
