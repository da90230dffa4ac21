//! What the graph shows, said of the samples and of the spans.

use vstd::multiset::Multiset;
use vstd::prelude::*;

use crate::model::series::{
    bin_value, empty_series, held_at, last_held, percentile_rank, points_of, pooled,
    samples_are_kept, store_recorded, summaries, summary_of, window_ns_of, within_reach, AggMode,
    SeriesKey, SeriesModel, StoreModel, BIN_CAP, BIN_SAMPLE_CAP,
};
use crate::order::{key_order, key_order_is_strict, Key};
use crate::pattern::{
    modest_numbers_stay_finite, over, places_are_small, rounded, rounding_is_close, shift_of,
    times, two_to, two_to_grows, two_to_is_positive, two_to_sum, units, units_of_one, whole_of,
    Double, DEPTH, STEP,
};
use crate::sorted::{finite_sets_are_listed, listing};
use crate::tally::{
    extremes_exist, greatest, in_order_is_unique, least, nondecreasing, sum_of, sum_of_bound,
    sum_of_insert,
};

verus! {

/// The series that a store holds under a key; empty where there is none.
pub open spec fn series_at(m: StoreModel, key: SeriesKey) -> SeriesModel {
    if m.series.dom().contains(key) {
        m.series[key]
    } else {
        empty_series()
    }
}

/// A sample falls into the bin that its time lies in: the position is such
/// that the bin begins no later than the sample and ends after it. The series
/// of its key then holds the sample there, behind those that were there
/// before, unless its bin is one that the series has let go already. The
/// series of other keys stay as they were, and the time axis reaches as far as
/// its latest sample. A sample from before the first bin changes no series.
pub proof fn samples_fall_into_their_bin(m: StoreModel, key: SeriesKey, t: u64, value: u64, at: u64)
    requires
        m.window_ns > 0,
        series_at(m, key).bins.len() <= BIN_CAP,
        series_at(m, key).base + series_at(m, key).bins.len() <= u64::MAX + 1,
        store_recorded(m, key, t, value).origin_ns->0 <= t ==> ({
            let start = store_recorded(m, key, t, value).origin_ns->0 + at * m.window_ns;
            start <= t < start + m.window_ns
        }),
    ensures
        ({
            let after = store_recorded(m, key, t, value);
            let was = series_at(m, key);
            let origin = after.origin_ns->0;
            &&& after.origin_ns is Some
            &&& after.window_ns == m.window_ns
            &&& m.origin_ns is Some ==> origin == m.origin_ns->0
            &&& forall|k: SeriesKey|
                k != key ==> #[trigger] series_at(after, k) == series_at(m, k)
            &&& t < origin ==> after.series == m.series && after.latest_bin_idx == m.latest_bin_idx
            &&& t >= origin ==> {
                &&& after.series.dom().contains(key)
                &&& after.latest_bin_idx >= at && after.latest_bin_idx >= m.latest_bin_idx
                &&& after.latest_bin_idx == at || after.latest_bin_idx == m.latest_bin_idx
                &&& was.bins.len() > 0 && at < was.base ==> after.series[key] == was
                &&& was.bins.len() == 0 || at >= was.base ==> {
                    let had = match held_at(was, at as int) {
                        Some(values) => values,
                        None => Seq::empty(),
                    };
                    &&& held_at(after.series[key], at as int) is Some
                    &&& had.len() < u64::MAX ==> held_at(after.series[key], at as int)->0
                        == had.push(value)
                    &&& forall|p: int|
                        p != at && p + BIN_CAP >= after.series[key].base
                            + after.series[key].bins.len() ==> #[trigger] held_at(
                            after.series[key],
                            p,
                        ) == held_at(was, p)
                }
            }
        }),
{
    let after = store_recorded(m, key, t, value);
    let origin = after.origin_ns->0;
    let w = m.window_ns as int;
    if t >= origin {
        let q = (t - origin) / w;
        let a = at as int;
        let d = t - origin;
        assert(q == a) by (nonlinear_arith)
            requires
                q == d / w,
                w > 0,
                a * w <= d < a * w + w,
        ;
        samples_are_kept(series_at(m, key), at, value);
    }
}

/// The time axis reaches as far as every series.
pub proof fn the_axis_reaches_every_series(
    m: StoreModel,
    key: SeriesKey,
    t: u64,
    value: u64,
    other: SeriesKey,
)
    requires
        m.window_ns > 0,
        forall|k: SeriesKey| #[trigger]
            m.series.dom().contains(k) ==> m.series[k].bins.len() <= BIN_CAP && m.series[k].base
                + m.series[k].bins.len() <= m.latest_bin_idx + 1,
        store_recorded(m, key, t, value).series.dom().contains(other),
    ensures
        ({
            let after = store_recorded(m, key, t, value);
            after.series[other].base + after.series[other].bins.len() <= after.latest_bin_idx + 1
        }),
{
    let after = store_recorded(m, key, t, value);
    let origin = after.origin_ns->0;
    if t >= origin && other == key {
        let at = ((t - origin) / m.window_ns as int) as u64;
        assert(0 <= (t - origin) / m.window_ns as int <= t) by (nonlinear_arith)
            requires
                m.window_ns > 0,
                t >= origin,
                origin >= 0,
        ;
        samples_are_kept(series_at(m, key), at, value);
    }
}

/// An ascending arrangement of some samples.
pub open spec fn arranges(s: Seq<u64>, samples: Seq<u64>) -> bool {
    nondecreasing(s) && s.to_multiset() == samples.to_multiset()
}

/// Any samples can be put in order.
proof fn orders_exist(m: Multiset<u64>) -> (s: Seq<u64>)
    ensures
        nondecreasing(s),
        s.to_multiset() == m,
        s.len() == m.len(),
    decreases m.len(),
{
    if m.len() == 0 {
        let s = Seq::<u64>::empty();
        s.to_multiset_ensures();
        assert(s.to_multiset() =~= m);
        s
    } else {
        extremes_exist(m);
        let g = greatest(m);
        assert(m.contains(g));
        let rest = orders_exist(m.remove(g));
        let s = rest.push(g);
        rest.to_multiset_ensures();
        s.to_multiset_ensures();
        assert(s.to_multiset() =~= m);
        assert forall|i: int, j: int| 0 <= i <= j < s.len() implies #[trigger] s[i]
            <= #[trigger] s[j] by {
            if j == rest.len() && i < rest.len() {
                assert(rest.contains(rest[i]));
                assert(rest.to_multiset().contains(rest[i]));
                assert(m.contains(rest[i]));
            }
        }
        s
    }
}

/// What stands for the samples of a bin: the least of them, the greatest of
/// them, their mean rounded down, or the one at the rank of a percentile among
/// the first of them in ascending order. The percentile of nothing or less is
/// the least of those. Returns the samples in ascending order.
pub proof fn bins_tell_their_samples(values: Seq<u64>, mode: AggMode) -> (sorted: Seq<u64>)
    requires
        0 < values.len() <= u64::MAX,
    ensures
        arranges(
            sorted,
            if values.len() <= BIN_SAMPLE_CAP {
                values
            } else {
                values.take(BIN_SAMPLE_CAP as int)
            },
        ),
        ({
            let r = bin_value(values, mode);
            &&& mode is Min ==> values.contains(r) && forall|i: int|
                0 <= i < values.len() ==> r <= #[trigger] values[i]
            &&& mode is Max ==> values.contains(r) && forall|i: int|
                0 <= i < values.len() ==> r >= #[trigger] values[i]
            &&& mode is Avg ==> r * values.len() <= added(values) < (r + 1) * values.len()
            &&& mode matches AggMode::Percentile(p) ==> {
                &&& sorted.len() == if values.len() <= BIN_SAMPLE_CAP {
                    values.len()
                } else {
                    BIN_SAMPLE_CAP as nat
                }
                &&& percentile_rank(p, sorted.len()) < sorted.len()
                &&& r == sorted[percentile_rank(p, sorted.len()) as int]
                &&& !p.is_positive() ==> r == sorted[0]
            }
        }),
{
    let all = values.to_multiset();
    values.to_multiset_ensures();
    extremes_exist(all);
    assert(all.contains(least(all)) && all.contains(greatest(all)));
    assert forall|i: int| 0 <= i < values.len() implies least(all) <= #[trigger] values[i]
        <= greatest(all) by {
        assert(values.contains(values[i]));
        assert(all.contains(values[i]));
    }
    added_is_sum(values);
    sum_of_bound(all);
    let (n, sum) = (all.len(), sum_of(all));
    assert(n * 0xffff_ffff_ffff_ffff <= 0xffff_ffff_ffff_ffff * 0xffff_ffff_ffff_ffff)
        by (nonlinear_arith)
        requires
            n <= 0xffff_ffff_ffff_ffff,
    ;
    let q = sum / n;
    assert(q * n <= sum < (q + 1) * n && q <= 0xffff_ffff_ffff_ffff) by (nonlinear_arith)
        requires
            q == sum / n,
            n > 0,
            sum <= n * 0xffff_ffff_ffff_ffff,
    ;
    assert(sum as u128 / (n as u128) == q);
    let samples = if values.len() <= BIN_SAMPLE_CAP {
        values
    } else {
        values.take(BIN_SAMPLE_CAP as int)
    };
    samples.to_multiset_ensures();
    let sorted = orders_exist(samples.to_multiset());
    sorted.to_multiset_ensures();
    in_order_is_unique(sorted);
    sorted
}

/// Some samples added up.
pub open spec fn added(values: Seq<u64>) -> int
    decreases values.len(),
{
    if values.len() == 0 {
        0
    } else {
        added(values.drop_last()) + values.last()
    }
}

proof fn added_is_sum(values: Seq<u64>)
    ensures
        added(values) == sum_of(values.to_multiset()),
    decreases values.len(),
{
    values.to_multiset_ensures();
    if values.len() > 0 {
        let front = values.drop_last();
        added_is_sum(front);
        front.to_multiset_ensures();
        assert(values =~= front.push(values.last()));
        assert(values.to_multiset() =~= front.to_multiset().insert(values.last()));
        sum_of_insert(front.to_multiset(), values.last());
    }
}

/// How many samples some bins hold.
pub open spec fn samples_in(bins: Seq<Option<Seq<u64>>>) -> nat
    decreases bins.len(),
{
    if bins.len() == 0 {
        0
    } else {
        samples_in(bins.drop_last()) + match bins.last() {
            Some(values) => values.len(),
            None => 0,
        }
    }
}

/// The samples of some bins added up.
pub open spec fn added_in(bins: Seq<Option<Seq<u64>>>) -> int
    decreases bins.len(),
{
    if bins.len() == 0 {
        0
    } else {
        added_in(bins.drop_last()) + match bins.last() {
            Some(values) => added(values),
            None => 0,
        }
    }
}

/// Bin `b` holds the sample.
pub open spec fn bin_has(bins: Seq<Option<Seq<u64>>>, b: int, x: u64) -> bool {
    0 <= b < bins.len() && bins[b] is Some && bins[b]->0.contains(x)
}

proof fn pooled_is_all(bins: Seq<Option<Seq<u64>>>)
    ensures
        pooled(bins).len() == samples_in(bins),
        sum_of(pooled(bins)) == added_in(bins),
        forall|b: int, x: u64| #[trigger] bin_has(bins, b, x) ==> pooled(bins).contains(x),
        forall|x: u64| #[trigger]
            pooled(bins).contains(x) ==> exists|b: int| #[trigger] bin_has(bins, b, x),
    decreases bins.len(),
{
    if bins.len() > 0 {
        let front = bins.drop_last();
        let last = bins.len() - 1;
        pooled_is_all(front);
        if let Some(values) = bins.last() {
            values.to_multiset_ensures();
            added_is_sum(values);
            sums_add(pooled(front), values.to_multiset());
        }
        assert forall|b: int, x: u64| #[trigger] bin_has(bins, b, x) implies pooled(bins).contains(
            x,
        ) by {
            if b < last {
                assert(bin_has(front, b, x));
                assert(pooled(front).contains(x));
            }
        }
        assert forall|x: u64| #[trigger] pooled(bins).contains(x) implies exists|b: int| #[trigger]
            bin_has(bins, b, x) by {
            if pooled(front).contains(x) {
                let b = choose|b: int| #[trigger] bin_has(front, b, x);
                assert(bin_has(bins, b, x));
            } else {
                assert(bin_has(bins, last, x));
            }
        }
    }
}

proof fn sums_add(a: Multiset<u64>, b: Multiset<u64>)
    ensures
        sum_of(a.add(b)) == sum_of(a) + sum_of(b),
    decreases b.len(),
{
    if b.len() == 0 {
        assert(b =~= Multiset::empty());
        assert(a.add(b) =~= a);
    } else {
        let x = b.choose();
        assert(b.contains(x));
        let rest = b.remove(x);
        assert(b =~= rest.insert(x));
        assert(a.add(b) =~= a.add(rest).insert(x));
        sums_add(a, rest);
        sum_of_insert(a.add(rest), x);
        sum_of_insert(rest, x);
    }
}

proof fn last_bin_is_held(bins: Seq<Option<Seq<u64>>>, b: int)
    requires
        0 <= b < bins.len(),
        bins[b] is Some,
        forall|j: int| b < j < bins.len() ==> #[trigger] bins[j] is None,
    ensures
        last_held(bins) == bins[b]->0,
    decreases bins.len(),
{
    if b < bins.len() - 1 {
        assert(bins[bins.len() - 1] is None);
        last_bin_is_held(bins.drop_last(), b);
    }
}

/// The table of series tells of all samples that a series holds: how many
/// there are, the least and the greatest of them and their mean rounded down,
/// and the value of the last bin that holds any.
pub proof fn summaries_tell_the_samples(
    key: SeriesKey,
    s: SeriesModel,
    mode: AggMode,
    b: int,
)
    requires
        0 < samples_in(s.bins) <= u64::MAX,
        0 <= b < s.bins.len(),
        s.bins[b] is Some,
        forall|j: int| b < j < s.bins.len() ==> #[trigger] s.bins[j] is None,
    ensures
        ({
            let row = summary_of(key, s, mode);
            &&& row.key == key
            &&& row.count == samples_in(s.bins)
            &&& forall|k: int, x: u64| #[trigger]
                bin_has(s.bins, k, x) ==> row.min_ns <= x <= row.max_ns
            &&& exists|k: int| #[trigger] bin_has(s.bins, k, row.min_ns)
            &&& exists|k: int| #[trigger] bin_has(s.bins, k, row.max_ns)
            &&& row.avg_ns * row.count <= added_in(s.bins) < (row.avg_ns + 1) * row.count
            &&& row.last_ns == bin_value(s.bins[b]->0, mode)
        }),
{
    let all = pooled(s.bins);
    pooled_is_all(s.bins);
    extremes_exist(all);
    assert(all.contains(least(all)) && all.contains(greatest(all)));
    last_bin_is_held(s.bins, b);
    let row = summary_of(key, s, mode);
    assert forall|k: int, x: u64| #[trigger] bin_has(s.bins, k, x) implies row.min_ns <= x
        <= row.max_ns by {
        assert(all.contains(x));
    }
    assert(exists|k: int| #[trigger] bin_has(s.bins, k, row.min_ns));
    assert(exists|k: int| #[trigger] bin_has(s.bins, k, row.max_ns));
    sum_of_bound(all);
    let (n, sum) = (all.len(), sum_of(all));
    assert(n * 0xffff_ffff_ffff_ffff <= 0xffff_ffff_ffff_ffff * 0xffff_ffff_ffff_ffff)
        by (nonlinear_arith)
        requires
            n <= 0xffff_ffff_ffff_ffff,
    ;
    let q = sum / n;
    assert(q * n <= sum < (q + 1) * n && q <= 0xffff_ffff_ffff_ffff) by (nonlinear_arith)
        requires
            q == sum / n,
            n > 0,
            sum <= n * 0xffff_ffff_ffff_ffff,
    ;
    assert(sum as u128 / (n as u128) == q);
    assert(row.avg_ns == q);
    assert(row.count == n);
}

/// The chart draws one point for every bin that holds samples and lies within
/// its reach, oldest first: as many bins back as the bin lies before the
/// latest, and as high as what stands for its samples.
pub proof fn points_tell_the_bins(
    m: StoreModel,
    s: SeriesModel,
    n: int,
    reach: Double,
    mode: AggMode,
) -> (bins: Seq<int>)
    requires
        0 <= n <= s.bins.len(),
        s.base + s.bins.len() <= m.latest_bin_idx + 1,
    ensures
        ({
            let points = points_of(m, s, n, reach, mode);
            &&& bins.len() == points.len()
            &&& forall|i: int, j: int|
                0 <= i < j < bins.len() ==> #[trigger] bins[i] < #[trigger] bins[j]
            &&& forall|i: int|
                0 <= i < bins.len() ==> {
                    &&& 0 <= #[trigger] bins[i] < n
                    &&& s.bins[bins[i]] is Some
                    &&& within_reach(m, s.base + bins[i], reach)
                    &&& points[i].0 == m.latest_bin_idx - (s.base + bins[i])
                    &&& points[i].1 == bin_value(s.bins[bins[i]]->0, mode)
                }
            &&& forall|b: int|
                0 <= b < n && #[trigger] s.bins[b] is Some && within_reach(m, s.base + b, reach)
                    ==> bins.contains(b)
        }),
    decreases n,
{
    if n == 0 {
        Seq::empty()
    } else {
        let before = points_tell_the_bins(m, s, n - 1, reach, mode);
        let at = s.base + n - 1;
        if s.bins[n - 1] is Some && within_reach(m, at, reach) {
            let bins = before.push(n - 1);
            assert forall|b: int|
                0 <= b < n && #[trigger] s.bins[b] is Some && within_reach(
                    m,
                    s.base + b,
                    reach,
                ) implies bins.contains(b) by {
                if b < n - 1 {
                    let k = choose|k: int| 0 <= k < before.len() && before[k] == b;
                    assert(bins[k] == b);
                } else {
                    assert(bins[before.len() as int] == b);
                }
            }
            bins
        } else {
            before
        }
    }
}

/// There is one summary for every series, under its key and of its samples,
/// and they ascend by key.
pub proof fn every_series_has_its_summary(m: StoreModel, mode: AggMode, key: SeriesKey, i: int)
    requires
        m.series.dom().finite(),
    ensures
        ({
            let all = summaries(m, mode);
            &&& m.series.dom().contains(key) ==> all.contains(
                summary_of(key, m.series[key], mode),
            )
            &&& 0 <= i < all.len() ==> m.series.dom().contains(all[i].key) && all[i] == summary_of(
                all[i].key,
                m.series[all[i].key],
                mode,
            )
            &&& forall|j: int|
                0 <= i < j < all.len() ==> <Vec<(String, String)> as Key>::less(
                    all[i].key,
                    (#[trigger] all[j]).key,
                )
        }),
{
    let lt = key_order::<Vec<(String, String)>>();
    key_order_is_strict::<Vec<(String, String)>>();
    finite_sets_are_listed(lt, m.series.dom());
    let keys = listing(lt, m.series.dom());
    let all = summaries(m, mode);
    if m.series.dom().contains(key) {
        assert(keys.to_set().contains(key));
        let k = choose|k: int| 0 <= k < keys.len() && keys[k] == key;
        assert(all[k] == summary_of(key, m.series[key], mode));
    }
    if 0 <= i < all.len() {
        assert(keys.to_set().contains(keys[i]));
        assert forall|j: int| i < j < all.len() implies <Vec<(String, String)> as Key>::less(
            all[i].key,
            (#[trigger] all[j]).key,
        ) by {
            assert(lt(keys[i], keys[j]));
        }
    }
}

/// The nearest whole number to a double is off by at most a half.
proof fn wholes_are_close(m: u64)
    ensures
        2 * (whole_of(m) * units_of_one()) <= 2 * units(m as nat) + units_of_one(),
        2 * units(m as nat) <= 2 * (whole_of(m) * units_of_one()) + units_of_one(),
{
    let (u, one) = (units(m as nat), units_of_one());
    two_to_is_positive(DEPTH as nat);
    let w = whole_of(m);
    vstd::arithmetic::div_mod::lemma_fundamental_div_mod(
        (2 * u + one) as int,
        (2 * one) as int,
    );
    let r = (2 * u + one) % (2 * one);
    assert((2 * one) * w == 2 * (w * one)) by (nonlinear_arith);
}

/// The width of a bin is that of the window in nanoseconds: for a window of
/// at most a billion seconds it is off by no more than a half and a part in
/// two to the fifty-first, unless the window is so small that the width is the
/// least one.
pub proof fn windows_are_as_wide_as_asked(window: Double)
    requires
        window.is_finite(),
        window.is_positive(),
        units(window.bits as nat) <= 0x4000_0000 * units_of_one(),
    ensures
        ({
            let ns = window_ns_of(window);
            let asked = units(window.bits as nat) * 1_000_000_000;
            let one = units_of_one();
            &&& ns >= 1
            &&& STEP * (2 * asked) <= STEP * (2 * (ns * one) + one) + 2 * asked + 2 * STEP
            &&& ns > 1 ==> STEP * (2 * (ns * one)) <= STEP * (2 * asked + one) + 2 * asked + 2
                * STEP
        }),
{
    let bits = window.bits;
    let one = units_of_one();
    let asked = units(bits as nat) * 1_000_000_000;
    two_to_is_positive(DEPTH as nat);
    assert(asked * 1 == asked);
    assert(1 * (0x1000_0000_0000_0000 * one) == 0x1000_0000_0000_0000 * one);
    modest_numbers_stay_finite(asked, 1);
    let product = times(bits, 1_000_000_000);
    assert(product == rounded(asked, 1));
    rounding_is_close(asked, 1);
    let pu = units(product as nat);
    let t = two_to(shift_of(product as nat));
    assert(1 * t == t && 1 * pu == pu);
    places_are_small(product as nat);
    wholes_are_close(product);
    let w = whole_of(product);
    assert(STEP * t <= 2 * asked + STEP) by {
        if t != 1 {
            assert(2 * pu <= 2 * asked + t);
        }
    }
    assert(w <= u64::MAX) by {
        assert(w * one <= 0x2000_0000_0000_0000 * one);
        assert(w <= 0x2000_0000_0000_0000) by (nonlinear_arith)
            requires
                w * one <= 0x2000_0000_0000_0000 * one,
                one > 0,
        ;
    }
    assert(STEP * (2 * (w * one)) <= STEP * (2 * asked + one) + STEP * t);
    assert(STEP * (2 * asked) <= STEP * (2 * (w * one) + one) + STEP * t);
    if w == 0 {
        assert(w * one == 0) by (nonlinear_arith)
            requires
                w == 0,
        ;
        assert(1 * one == one);
    }
}

/// A percentile stands in proportion: of some samples in order, the rank at
/// which it is looked for differs from its share of the last rank by no more
/// than a half and a two-hundredth.
pub proof fn percentiles_stand_in_proportion(p: Double, n: nat)
    requires
        0 < n <= BIN_SAMPLE_CAP,
        p.is_positive(),
        p.is_finite(),
        units(p.bits as nat) <= 100 * units_of_one(),
    ensures
        ({
            let rank = percentile_rank(p, n);
            let share = units(p.bits as nat) * (n - 1);
            let one = units_of_one();
            &&& rank <= n - 1
            &&& 200 * (rank * one) <= 2 * share + 101 * one
            &&& 2 * share <= 200 * (rank * one) + 101 * one
        }),
{
    let one = units_of_one();
    let last = (n - 1) as nat;
    let up = units(p.bits as nat);
    let share = up * last;
    two_to_is_positive(DEPTH as nat);
    one_is_large();
    let part = over(p.bits, 100);
    assert(up <= 100 * (0x1000_0000_0000_0000 * one));
    modest_numbers_stay_finite(up, 100);
    rounding_is_close(up, 100);
    let pu = units(part as nat);
    let s = two_to(shift_of(part as nat));
    places_are_small(part as nat);
    assert(pu <= 2 * one) by {
        assert(200 * pu <= 2 * up + 100 * s);
        if s != 1 {
            assert(STEP * s <= pu);
        }
    }
    assert(STEP * s <= 2 * one);
    let wide = pu * last;
    assert(wide <= 8192 * one) by (nonlinear_arith)
        requires
            wide == pu * last,
            pu <= 2 * one,
            last <= 4096,
    ;
    assert(wide * 1 == wide);
    assert(1 * (0x1000_0000_0000_0000 * one) == 0x1000_0000_0000_0000 * one);
    modest_numbers_stay_finite(wide, 1);
    rounding_is_close(wide, 1);
    let product = times(part, last);
    let qu = units(product as nat);
    let t = two_to(shift_of(product as nat));
    assert(1 * t == t && 1 * qu == qu);
    places_are_small(product as nat);
    assert(qu <= 16384 * one) by {
        if t != 1 {
            assert(STEP * t <= qu);
        }
    }
    assert(STEP * t <= 16384 * one);
    wholes_are_close(product);
    let w = whole_of(product);
    // How far the parts are off together.
    let drift = s * last;
    assert(STEP * drift <= 8192 * one) by (nonlinear_arith)
        requires
            drift == s * last,
            STEP * s <= 2 * one,
            last <= 4096,
    ;
    assert(200 * wide <= 2 * share + 100 * drift && 2 * share <= 200 * wide + 100 * drift)
        by (nonlinear_arith)
        requires
            -(100 * s) <= 2 * (up - 100 * pu) <= 100 * s,
            share == up * last,
            wide == pu * last,
            drift == s * last,
            last >= 0,
    ;
    assert(200 * (w * one) <= 2 * share + 100 * one + 100 * t + 100 * drift);
    assert(2 * share <= 200 * (w * one) + 100 * one + 100 * t + 100 * drift);
    assert(100 * t + 100 * drift <= one);
    assert(share <= 100 * (one * last)) by (nonlinear_arith)
        requires
            share == up * last,
            up <= 100 * one,
            last >= 0,
    ;
    assert(w <= last) by {
        assert(200 * (w * one) <= 200 * (one * last) + 101 * one);
        assert(w <= last) by (nonlinear_arith)
            requires
                200 * (w * one) <= 200 * (one * last) + 101 * one,
                one > 0,
        ;
    }
}

proof fn one_is_large()
    ensures
        units_of_one() >= STEP * STEP,
{
    two_to_sum(52, 52);
    two_to_grows(104, 1_074);
    steps_are_powers();
}

proof fn steps_are_powers()
    ensures
        two_to(52) == STEP,
{
    reveal_with_fuel(two_to, 54);
}

} // verus!
