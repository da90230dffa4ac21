//! What typed inputs ask for.

use vstd::prelude::*;

use crate::cache::predicate::clamped_chance;
use crate::model::graph::{agg_input, lookback_input};
use crate::model::input::{chance_input, window_input};
use crate::number::{digits_write_their_number, number, written_numbers_are_read_back};
use crate::pattern::{
    patterns_are_in_order, ratio, times, two_to, two_to_is_positive, two_to_sum, units,
    units_of_one, whole_numbers_are_doubles, Double, DEPTH, HUNDRED, INFINITE, STEP,
};
use crate::protocol::Text;
use crate::text::{decimal, folded, is_digit, is_white, trimmed};

verus! {

/// A hundred is a hundred.
proof fn hundred_is_hundred()
    ensures
        units(HUNDRED as nat) == 100 * units_of_one(),
{
    assert(HUNDRED as nat / (STEP as nat) == 1_029);
    assert(HUNDRED as nat % (STEP as nat) == 0x9_0000_0000_0000);
    reveal_with_fuel(two_to, 50);
    assert(two_to(48) == 0x1_0000_0000_0000);
    two_to_sum(48, 1_028);
    two_to_sum(2, 1_074);
    assert(two_to(2) == 4);
    let (a, b) = (two_to(1_028), two_to(1_074));
    assert(0x19_0000_0000_0000 * a == 25 * (0x1_0000_0000_0000 * a));
}

/// Patterns are in the order of what they stand for.
proof fn units_are_in_order(a: nat, b: nat)
    ensures
        units(a) <= units(b) <==> a <= b,
        units(a) == units(b) <==> a == b,
{
    if a < b {
        patterns_are_in_order(a, b);
    } else if b < a {
        patterns_are_in_order(b, a);
    }
}

/// A written number is finite, and is zero only where it writes zero.
proof fn written_numbers_are_finite(n: nat)
    requires
        n < 2 * STEP,
    ensures
        ({
            let d = number(decimal(n))->0;
            &&& d.is_finite()
            &&& d.bits < INFINITE
            &&& n > 0 <==> d.is_positive()
            &&& n == 0 <==> d.is_zero()
            &&& n <= 100 <==> d.lies_within(HUNDRED)
            &&& n >= 100 <==> d.reaches(HUNDRED)
        }),
{
    written_numbers_are_read_back(n);
    whole_numbers_are_doubles(n);
    let d = number(decimal(n))->0;
    let r = ratio(n, 1);
    let one = units_of_one();
    two_to_is_positive(DEPTH as nat);
    units_are_in_order(d.bits as nat, r as nat);
    assert(d.bits == r);
    hundred_is_hundred();
    units_are_in_order(d.bits as nat, HUNDRED as nat);
    units_are_in_order(HUNDRED as nat, d.bits as nat);
    units_are_in_order(d.bits as nat, 0);
    assert(units(0) == 0) by {
        assert(0 * two_to(0) == 0);
    }
    assert(n * one <= 100 * one <==> n <= 100) by (nonlinear_arith)
        requires
            one > 0,
    ;
    assert(n * one >= 100 * one <==> n >= 100) by (nonlinear_arith)
        requires
            one > 0,
    ;
    assert(n * one == 0 <==> n == 0) by (nonlinear_arith)
        requires
            one > 0,
    ;
}

/// Digits are not white space.
proof fn digits_are_trimmed(s: Text)
    requires
        s.len() > 0,
        !is_white(s[0]),
        !is_white(s.last()),
    ensures
        trimmed(s) == s,
{
}

/// A whole number that is typed in is the chance asked for, as long as it is
/// no more than a hundred; a greater one asks for nothing.
pub proof fn chances_are_read(n: nat)
    requires
        n < 2 * STEP,
    ensures
        n <= 100 ==> {
            &&& chance_input(decimal(n)) is Some
            &&& units(chance_input(decimal(n))->0.bits as nat) == n * units_of_one()
        },
        n > 100 ==> chance_input(decimal(n)) is None,
{
    written_numbers_are_read_back(n);
    written_numbers_are_finite(n);
}

/// A whole number of seconds that is typed in is the window asked for, unless
/// it is zero.
pub proof fn windows_are_read(n: nat)
    requires
        n < 2 * STEP,
    ensures
        n > 0 ==> {
            &&& window_input(decimal(n)) is Some
            &&& units(window_input(decimal(n))->0.bits as nat) == n * units_of_one()
        },
        n == 0 ==> window_input(decimal(n)) is None,
{
    written_numbers_are_read_back(n);
    written_numbers_are_finite(n);
}

/// A whole number is read as so many seconds back, with or without an `s`
/// behind it, and as so many minutes with an `m`. Zero asks for nothing.
pub proof fn lookbacks_are_read(n: nat)
    requires
        60 * n < 2 * STEP,
    ensures
        ({
            let s = decimal(n);
            &&& n > 0 ==> {
                &&& lookback_input(s) is Some
                &&& units(lookback_input(s)->0.bits as nat) == n * units_of_one()
                &&& lookback_input(s.push('s')) == lookback_input(s)
                &&& lookback_input(s.push('m')) is Some
                &&& units(lookback_input(s.push('m'))->0.bits as nat) == 60 * n * units_of_one()
            }
            &&& n == 0 ==> {
                &&& lookback_input(s) is None
                &&& lookback_input(s.push('s')) is None
                &&& lookback_input(s.push('m')) is None
            }
        }),
{
    let s = decimal(n);
    written_numbers_are_read_back(n);
    written_numbers_are_finite(n);
    digits_write_their_number(n);
    assert(is_digit(s[0]) && is_digit(s[s.len() - 1]));
    digits_are_trimmed(s);
    digits_are_trimmed(s.push('s'));
    digits_are_trimmed(s.push('m'));
    assert(s.push('s').drop_last() =~= s);
    assert(s.push('m').drop_last() =~= s);
    let d = number(s)->0;
    let one = units_of_one();
    assert(units(d.bits as nat) * 60 == (60 * n) * one) by (nonlinear_arith)
        requires
            units(d.bits as nat) == n * one,
    ;
    whole_numbers_are_doubles(60 * n);
    assert(times(d.bits, 60) == ratio(60 * n, 1));
}

/// A `p` and a whole number ask for that percentile; for none of them the
/// least sample is asked for, and for a hundred or more the greatest.
pub proof fn percentiles_are_read(n: nat)
    requires
        n < 2 * STEP,
    ensures
        ({
            let s = seq!['p'] + decimal(n);
            let mode = agg_input(s);
            &&& mode is Some
            &&& n == 0 ==> mode->0 is Min
            &&& n >= 100 ==> mode->0 is Max
            &&& 0 < n < 100 ==> {
                &&& mode->0 is Percentile
                &&& units(mode->0->Percentile_0.bits as nat) == n * units_of_one()
            }
        }),
{
    let d = decimal(n);
    let s = seq!['p'] + d;
    written_numbers_are_read_back(n);
    written_numbers_are_finite(n);
    digits_write_their_number(n);
    assert(is_digit(d[d.len() - 1]));
    assert(s.last() == d[d.len() - 1]);
    digits_are_trimmed(s);
    assert forall|i: int| 0 <= i < s.len() implies #[trigger] folded(s)[i] == s[i] by {
        if i > 0 {
            assert(is_digit(d[i - 1]));
        }
    }
    assert(folded(s) =~= s);
    assert(s.skip(1) =~= d);
    reveal_strlit("a");
    reveal_strlit("avg");
    reveal_strlit("min");
    reveal_strlit("max");
    assert(s[0] == 'p');
    assert("a"@[0] == 'a' && "avg"@[0] == 'a' && "min"@[0] == 'm' && "max"@[0] == 'm');
}

/// Capital letters and white space around it make no difference to what an
/// aggregation input asks for.
pub proof fn aggregations_are_read_loosely(s: Text)
    ensures
        agg_input(trimmed(s)) == agg_input(s),
        agg_input(folded(s)) == agg_input(s),
{
    trimmed_twice(s);
    folded_trimmed(s);
    folded_twice(trimmed(s));
}

proof fn trimmed_twice(s: Text)
    ensures
        trimmed(trimmed(s)) == trimmed(s),
    decreases s.len(),
{
    if s.len() > 0 {
        if is_white(s[0]) {
            trimmed_twice(s.skip(1));
        } else if is_white(s.last()) {
            trimmed_twice(s.drop_last());
        }
    }
}

proof fn folded_twice(s: Text)
    ensures
        folded(folded(s)) == folded(s),
{
    assert(folded(folded(s)) =~= folded(s));
}

proof fn folded_trimmed(s: Text)
    ensures
        trimmed(folded(s)) == folded(trimmed(s)),
    decreases s.len(),
{
    if s.len() > 0 {
        let f = folded(s);
        assert(is_white(f[0]) == is_white(s[0]));
        assert(is_white(f.last()) == is_white(s.last()));
        if is_white(s[0]) {
            folded_trimmed(s.skip(1));
            assert(f.skip(1) =~= folded(s.skip(1)));
        } else if is_white(s.last()) {
            folded_trimmed(s.drop_last());
            assert(f.drop_last() =~= folded(s.drop_last()));
        }
    } else {
        assert(folded(s) =~= s);
    }
}

/// A chance is held between none and a full one: what lies between stays as
/// it is, what is more becomes full, and what is less, or no number, becomes
/// none.
pub proof fn chances_are_held_in_range(pct: Double)
    ensures
        clamped_chance(pct).lies_within(HUNDRED),
        pct.lies_within(HUNDRED) ==> clamped_chance(pct) == pct,
        pct.reaches(HUNDRED) ==> clamped_chance(pct).bits == HUNDRED,
        !pct.lies_within(HUNDRED) && !pct.reaches(HUNDRED) ==> clamped_chance(pct).is_zero(),
        clamped_chance(clamped_chance(pct)) == clamped_chance(pct),
{
}

} // verus!
