//! Time series of span times, in bins of equal width.

use vstd::multiset::Multiset;
use vstd::prelude::*;

use crate::aggregate::types::average;
use crate::double::{whole_double, whole_double_of};
use crate::pattern::{
    covers, is_covered, one_is_one, over, over_of, positive, ratio, ratio_of, sat64, times,
    times_of, units, units_of_one, whole_number, whole_numbers_are_doubles, whole_of, Double,
    BILLION, INFINITE, ONE,
};
use crate::order::{key_order, Key};
use crate::protocol::Text;
use crate::sorted::{listing, SortedMap};
use crate::tally::{extremes_exist, greatest, in_order, least, sum_of, sum_of_bound, sum_of_insert, Tally};

verus! {

/// How the samples of a bin become one value.
#[derive(Debug, Clone, Copy, PartialEq, Eq, Structural)]
pub enum AggMode {
    Min,
    Max,
    Avg,
    /// A percentile; zero is the least sample, one hundred the greatest.
    Percentile(Double),
}

/// The most bins that a series keeps.
pub const BIN_CAP: usize = 600;

/// The most samples of a bin from which percentiles are drawn.
pub const BIN_SAMPLE_CAP: usize = 4096;

/// Which of `n` sorted samples stands at the given percentile. The position
/// is worked out in double precision and rounded to the nearest, a halfway
/// case upwards.
pub open spec fn percentile_rank(p: Double, n: nat) -> nat {
    let last = (n - 1) as nat;
    if p.is_positive() {
        let product = times(over(p.bits, 100), last);
        if product < INFINITE && whole_of(product) <= last {
            whole_of(product)
        } else {
            last
        }
    } else {
        0
    }
}

pub fn percentile_index(p: Double, n: usize) -> (r: usize)
    requires
        0 < n <= BIN_SAMPLE_CAP,
    ensures
        r == percentile_rank(p, n as nat),
        r < n,
{
    let last: usize = n - 1;
    if !positive(p) {
        return 0;
    }
    let product: u64 = times_of(over_of(p.bits, 100), last as u128);
    if product >= INFINITE {
        return last;
    }
    let rank: u64 = whole_number(product);
    if rank <= last as u64 {
        rank as usize
    } else {
        last
    }
}

/// The value that stands for some samples.
pub open spec fn bin_value(values: Seq<u64>, mode: AggMode) -> u64 {
    if values.len() == 0 {
        0
    } else {
        let all = values.to_multiset();
        match mode {
            AggMode::Min => least(all),
            AggMode::Max => greatest(all),
            AggMode::Avg => average(sum_of(all) as u128, values.len() as u64),
            AggMode::Percentile(p) => {
                let samples = if values.len() <= BIN_SAMPLE_CAP {
                    values
                } else {
                    values.take(BIN_SAMPLE_CAP as int)
                };
                in_order(samples.to_multiset())[percentile_rank(p, samples.len()) as int]
            },
        }
    }
}

/// One more sample, as long as the counter can tell it.
pub open spec fn bin_recorded(values: Seq<u64>, value: u64) -> Seq<u64> {
    if values.len() < u64::MAX {
        values.push(value)
    } else {
        values
    }
}

/// The samples that fell into one stretch of time.
pub struct Bin {
    count: u64,
    sum_ns: u128,
    min_ns: u64,
    max_ns: u64,
    samples: Vec<u64>,
    values: Ghost<Seq<u64>>,
}

impl View for Bin {
    type V = Seq<u64>;

    /// All samples in the order in which they came.
    closed spec fn view(&self) -> Seq<u64> {
        self.values@
    }
}

impl Bin {
    pub closed spec fn wf(&self) -> bool {
        let all = self@.to_multiset();
        &&& self.count == self@.len()
        &&& self.sum_ns == sum_of(all)
        &&& self.min_ns == least(all)
        &&& self.max_ns == greatest(all)
        &&& self.samples@ == if self@.len() <= BIN_SAMPLE_CAP {
            self@
        } else {
            self@.take(BIN_SAMPLE_CAP as int)
        }
    }

    pub fn new() -> (b: Self)
        ensures
            b.wf(),
            b@ == Seq::<u64>::empty(),
    {
        let b = Bin {
            count: 0,
            sum_ns: 0,
            min_ns: 0,
            max_ns: 0,
            samples: Vec::new(),
            values: Ghost(Seq::empty()),
        };
        proof {
            b@.to_multiset_ensures();
            assert(b.samples@ =~= b@);
        }
        b
    }

    pub fn record(&mut self, value: u64)
        requires
            old(self).wf(),
        ensures
            final(self).wf(),
            final(self)@ == bin_recorded(old(self)@, value),
    {
        if self.count == u64::MAX {
            return ;
        }
        let ghost before = self@;
        let ghost all = before.to_multiset();
        proof {
            before.to_multiset_ensures();
            assert(before.push(value).to_multiset() =~= all.insert(value));
            sum_of_insert(all, value);
            sum_of_bound(all.insert(value));
            sums_fit(all.insert(value).len());
            extremes_after_insert(all, value);
        }
        if self.count == 0 {
            self.min_ns = value;
            self.max_ns = value;
        } else {
            if value < self.min_ns {
                self.min_ns = value;
            }
            if value > self.max_ns {
                self.max_ns = value;
            }
        }
        self.count = self.count + 1;
        self.sum_ns = self.sum_ns + value as u128;
        if self.samples.len() < BIN_SAMPLE_CAP {
            self.samples.push(value);
        }
        self.values = Ghost(before.push(value));
        proof {
            if before.len() < BIN_SAMPLE_CAP {
                assert(self.samples@ =~= self@);
            } else {
                assert(before.push(value).take(BIN_SAMPLE_CAP as int) =~= before.take(
                    BIN_SAMPLE_CAP as int,
                ));
                if before.len() == BIN_SAMPLE_CAP {
                    assert(before.take(BIN_SAMPLE_CAP as int) =~= before);
                }
            }
        }
    }

    /// The value that stands for the samples.
    pub fn aggregate(&self, mode: AggMode) -> (r: u64)
        requires
            self.wf(),
        ensures
            r == bin_value(self@, mode),
    {
        if self.count == 0 {
            return 0;
        }
        match mode {
            AggMode::Min => self.min_ns,
            AggMode::Max => self.max_ns,
            AggMode::Avg => {
                #[verifier::truncate]
                let avg: u64 = (self.sum_ns / self.count as u128) as u64;
                avg
            },
            AggMode::Percentile(p) => {
                let mut sorted = Tally::new();
                let mut i: usize = 0;
                proof {
                    self.samples@.take(0).to_multiset_ensures();
                    assert(self.samples@.take(0).to_multiset() =~= Multiset::empty());
                }
                while i < self.samples.len()
                    invariant
                        sorted.wf(),
                        i <= self.samples@.len(),
                        sorted@ == self.samples@.take(i as int).to_multiset(),
                    decreases self.samples@.len() - i,
                {
                    sorted.add(self.samples[i]);
                    proof {
                        self.samples@.take(i as int).to_multiset_ensures();
                        assert(self.samples@.take(i + 1) =~= self.samples@.take(i as int).push(
                            self.samples@[i as int],
                        ));
                    }
                    i = i + 1;
                }
                proof {
                    assert(self.samples@.take(i as int) =~= self.samples@);
                    self.samples@.to_multiset_ensures();
                }
                let at: usize = percentile_index(p, self.samples.len());
                sorted.nth(at)
            },
        }
    }
}

/// How one more element moves the least and the greatest.
proof fn extremes_after_insert(m: Multiset<u64>, x: u64)
    ensures
        m.len() == 0 ==> least(m.insert(x)) == x && greatest(m.insert(x)) == x,
        m.len() > 0 ==> least(m.insert(x)) == if x < least(m) {
            x
        } else {
            least(m)
        },
        m.len() > 0 ==> greatest(m.insert(x)) == if x > greatest(m) {
            x
        } else {
            greatest(m)
        },
{
    let n = m.insert(x);
    assert(n.contains(x));
    if m.len() == 0 {
        assert forall|y: u64| #[trigger] n.contains(y) implies y == x by {
            if y != x {
                assert(m.count(y) <= m.len());
            }
        }
        assert(crate::tally::is_least(n, x));
        assert(crate::tally::is_least(n, least(n)));
        assert(crate::tally::is_greatest(n, x));
        assert(crate::tally::is_greatest(n, greatest(n)));
    } else {
        extremes_exist(m);
        let l = least(m);
        let g = greatest(m);
        assert(m.contains(l) && m.contains(g));
        let l2 = if x < l { x } else { l };
        let g2 = if x > g { x } else { g };
        assert forall|y: u64| #[trigger] n.contains(y) implies l2 <= y && y <= g2 by {
            if y != x {
                assert(m.contains(y));
            }
        }
        assert(n.contains(l) && n.contains(g));
        assert(crate::tally::is_least(n, l2));
        assert(crate::tally::is_greatest(n, g2));
        assert(crate::tally::is_least(n, least(n)));
        assert(crate::tally::is_greatest(n, greatest(n)));
        assert(n.contains(least(n)) && n.contains(greatest(n)));
    }
}

/// The bins of one series: `base` is the position of the first on the time
/// axis, and a bin that received nothing is `None`.
pub ghost struct SeriesModel {
    pub base: u64,
    pub bins: Seq<Option<Seq<u64>>>,
}

pub open spec fn empty_series() -> SeriesModel {
    SeriesModel { base: 0, bins: Seq::empty() }
}

/// What the bin at position `at` of the time axis holds.
pub open spec fn held_at(s: SeriesModel, at: int) -> Option<Seq<u64>> {
    if s.base <= at < s.base + s.bins.len() {
        s.bins[at - s.base]
    } else {
        None
    }
}

/// The first position that is kept when a sample falls on `at`.
pub open spec fn first_kept(s: SeriesModel, at: u64) -> int {
    if at + 1 - BIN_CAP > s.base {
        at + 1 - BIN_CAP
    } else {
        s.base as int
    }
}

/// One past the last position when a sample falls on `at`.
pub open spec fn end_after(s: SeriesModel, at: u64) -> int {
    if at + 1 > s.base + s.bins.len() {
        at + 1
    } else {
        s.base + s.bins.len()
    }
}

/// The series after a sample at position `at` of the time axis. A sample from
/// before the kept stretch is ignored.
pub open spec fn series_recorded(s: SeriesModel, at: u64, value: u64) -> SeriesModel {
    if s.bins.len() == 0 {
        SeriesModel { base: at, bins: seq![Some(bin_recorded(Seq::empty(), value))] }
    } else if at < s.base {
        s
    } else {
        let first = first_kept(s, at);
        SeriesModel {
            base: first as u64,
            bins: Seq::new(
                (end_after(s, at) - first) as nat,
                |i: int|
                    if first + i == at {
                        Some(
                            bin_recorded(
                                match held_at(s, at as int) {
                                    Some(values) => values,
                                    None => Seq::empty(),
                                },
                                value,
                            ),
                        )
                    } else {
                        held_at(s, first + i)
                    },
            ),
        }
    }
}

/// A sample that is no older than the first bin kept is in the series
/// afterwards: the bin at its position holds what it held before followed by
/// the sample, and the series reaches at least as far. Every other bin stays
/// as it was, but for those that lie as far before the end as a series keeps
/// bins, or farther: of these none is left. A sample from before the first bin
/// changes nothing.
pub proof fn samples_are_kept(s: SeriesModel, at: u64, value: u64)
    requires
        s.bins.len() <= BIN_CAP,
        s.base + s.bins.len() <= u64::MAX + 1,
    ensures
        ({
            let after = series_recorded(s, at, value);
            let end = after.base + after.bins.len();
            let had = match held_at(s, at as int) {
                Some(values) => values,
                None => Seq::empty(),
            };
            &&& s.bins.len() == 0 || at >= s.base ==> {
                &&& held_at(after, at as int) is Some
                &&& had.len() < u64::MAX ==> held_at(after, at as int)->0 == had.push(value)
                &&& had.len() >= u64::MAX ==> held_at(after, at as int)->0 == had
                &&& end == if s.bins.len() > 0 && s.base + s.bins.len() > at {
                    s.base + s.bins.len()
                } else {
                    at + 1
                }
                &&& forall|p: int|
                    p != at && p + BIN_CAP >= end ==> #[trigger] held_at(after, p) == held_at(s, p)
                &&& forall|p: int| p + BIN_CAP < end ==> #[trigger] held_at(after, p) is None
            }
            &&& s.bins.len() > 0 && at < s.base ==> after == s
            &&& after.bins.len() <= BIN_CAP
        }),
{
    let after = series_recorded(s, at, value);
    let end = after.base + after.bins.len();
    if s.bins.len() == 0 || at >= s.base {
        assert(after.base <= at < end);
        assert(held_at(after, at as int) == after.bins[at - after.base]);
        assert forall|p: int| p != at && p + BIN_CAP >= end implies #[trigger] held_at(after, p)
            == held_at(s, p) by {
            if after.base <= p < end {
                assert(held_at(after, p) == after.bins[p - after.base]);
            }
        }
    }
}

/// All samples of some bins.
pub open spec fn pooled(bins: Seq<Option<Seq<u64>>>) -> Multiset<u64>
    decreases bins.len(),
{
    if bins.len() == 0 {
        Multiset::empty()
    } else {
        let rest = pooled(bins.drop_last());
        match bins.last() {
            Some(values) => rest.add(values.to_multiset()),
            None => rest,
        }
    }
}

/// The samples of the last bin that has any.
pub open spec fn last_held(bins: Seq<Option<Seq<u64>>>) -> Seq<u64>
    decreases bins.len(),
{
    if bins.len() == 0 {
        Seq::empty()
    } else {
        match bins.last() {
            Some(values) => values,
            None => last_held(bins.drop_last()),
        }
    }
}

/// Statistics of a series over all of its bins, and the value of its last
/// bin.
#[derive(Debug, Clone)]
pub struct SeriesSummary {
    pub key: Vec<(String, String)>,
    pub count: u64,
    pub min_ns: u64,
    pub max_ns: u64,
    pub avg_ns: u64,
    pub last_ns: u64,
}

pub ghost struct SummaryModel {
    pub key: Seq<(Text, Text)>,
    pub count: u64,
    pub min_ns: u64,
    pub max_ns: u64,
    pub avg_ns: u64,
    pub last_ns: u64,
}

impl View for SeriesSummary {
    type V = SummaryModel;

    open spec fn view(&self) -> SummaryModel {
        SummaryModel {
            key: self.key.model(),
            count: self.count,
            min_ns: self.min_ns,
            max_ns: self.max_ns,
            avg_ns: self.avg_ns,
            last_ns: self.last_ns,
        }
    }
}

/// A count held at the greatest that fits.
pub open spec fn held_count(n: nat) -> u64 {
    if n <= u64::MAX {
        n as u64
    } else {
        u64::MAX
    }
}

/// A sum held at the greatest that fits.
pub open spec fn held_sum(n: nat) -> u128 {
    if n <= u128::MAX {
        n as u128
    } else {
        u128::MAX
    }
}

/// The sum of as many samples as a counter can tell fits.
proof fn sums_fit(n: nat)
    requires
        n <= u64::MAX,
    ensures
        n * 0xffff_ffff_ffff_ffff <= u128::MAX,
{
    assert(n * 0xffff_ffff_ffff_ffff <= 0xffff_ffff_ffff_ffff * 0xffff_ffff_ffff_ffff)
        by (nonlinear_arith)
        requires
            n <= 0xffff_ffff_ffff_ffff,
    ;
}

pub open spec fn summary_of(key: Seq<(Text, Text)>, s: SeriesModel, mode: AggMode) -> SummaryModel {
    let all = pooled(s.bins);
    SummaryModel {
        key,
        count: held_count(all.len()),
        min_ns: least(all),
        max_ns: greatest(all),
        avg_ns: average(held_sum(sum_of(all)), held_count(all.len())),
        last_ns: bin_value(last_held(s.bins), mode),
    }
}

spec fn bins_model(bins: Seq<Option<Bin>>) -> Seq<Option<Seq<u64>>> {
    bins.map_values(
        |b: Option<Bin>|
            match b {
                Some(bin) => Some(bin@),
                None => None,
            },
    )
}

spec fn bins_ok(bins: Seq<Option<Bin>>) -> bool {
    forall|i: int|
        0 <= i < bins.len() ==> match #[trigger] bins[i] {
            Some(bin) => bin.wf() && bin@.len() > 0,
            None => true,
        }
}

/// The bins of one series.
pub struct Series {
    bins: Vec<Option<Bin>>,
    base_idx: u64,
}

impl View for Series {
    type V = SeriesModel;

    closed spec fn view(&self) -> SeriesModel {
        SeriesModel { base: self.base_idx, bins: bins_model(self.bins@) }
    }
}

/// The sums of two multisets add up.
proof fn sum_of_union(a: Multiset<u64>, b: Multiset<u64>)
    ensures
        sum_of(a.add(b)) == sum_of(a) + sum_of(b),
    decreases b.len(),
{
    if b.len() == 0 {
        assert(b =~= Multiset::empty());
        assert(a.add(b) =~= a);
    } else {
        let x = b.choose();
        assert(b.contains(x));
        let rest = b.remove(x);
        assert(b =~= rest.insert(x));
        assert(a.add(b) =~= a.add(rest).insert(x));
        sum_of_union(a, rest);
        sum_of_insert(a.add(rest), x);
        sum_of_insert(rest, x);
    }
}

/// The least and the greatest of two multisets together.
proof fn extremes_of_union(a: Multiset<u64>, b: Multiset<u64>)
    requires
        b.len() > 0,
    ensures
        least(a.add(b)) == if a.len() > 0 && least(a) < least(b) {
            least(a)
        } else {
            least(b)
        },
        greatest(a.add(b)) == if a.len() > 0 && greatest(a) > greatest(b) {
            greatest(a)
        } else {
            greatest(b)
        },
{
    let n = a.add(b);
    extremes_exist(b);
    assert(b.contains(least(b)) && b.contains(greatest(b)));
    assert(n.contains(least(b)) && n.contains(greatest(b)));
    assert(n.len() > 0);
    extremes_exist(n);
    assert(n.contains(least(n)) && n.contains(greatest(n)));
    if a.len() > 0 {
        extremes_exist(a);
        assert(a.contains(least(a)) && a.contains(greatest(a)));
        assert(n.contains(least(a)) && n.contains(greatest(a)));
    } else {
        assert(a =~= Multiset::empty());
        assert(n =~= b);
    }
    assert(a.contains(least(n)) || b.contains(least(n)));
    assert(a.contains(greatest(n)) || b.contains(greatest(n)));
    if a.contains(least(n)) {
        assert(a.count(least(n)) <= a.len());
    }
    if a.contains(greatest(n)) {
        assert(a.count(greatest(n)) <= a.len());
    }
}

impl Series {
    pub closed spec fn wf(&self) -> bool {
        &&& bins_ok(self.bins@)
        &&& self.bins@.len() <= BIN_CAP
        &&& self.base_idx + self.bins@.len() <= u64::MAX + 1
    }

    pub fn new() -> (s: Self)
        ensures
            s.wf(),
            s@ == empty_series(),
    {
        let s = Series { bins: Vec::new(), base_idx: 0 };
        assert(s@.bins =~= Seq::empty());
        s
    }

    /// Drops the first `n` bins.
    fn drop_front(&mut self, n: u64)
        requires
            old(self).wf(),
            old(self).base_idx + n <= u64::MAX,
        ensures
            bins_ok(final(self).bins@),
            final(self).base_idx == old(self).base_idx + n,
            final(self).bins@ == if n <= old(self).bins@.len() {
                old(self).bins@.skip(n as int)
            } else {
                Seq::empty()
            },
    {
        let ghost before = self.bins@;
        if n >= self.bins.len() as u64 {
            self.bins.clear();
            assert(self.bins@ =~= if n <= before.len() {
                before.skip(n as int)
            } else {
                Seq::empty()
            });
        } else {
            let mut left: u64 = n;
            assert(before.skip(0) =~= before);
            while left > 0
                invariant
                    left <= n < before.len(),
                    self.base_idx == old(self).base_idx,
                    self.bins@ == before.skip(n - left),
                decreases left,
            {
                let _ = self.bins.remove(0);
                left = left - 1;
                assert(self.bins@ =~= before.skip(n - left));
            }
            assert forall|i: int| 0 <= i < self.bins@.len() implies match #[trigger] self.bins@[i] {
                Some(bin) => bin.wf() && bin@.len() > 0,
                None => true,
            } by {
                assert(self.bins@[i] == before[i + n]);
            }
        }
        self.base_idx = self.base_idx + n;
    }

    /// Adds a sample at a position of the time axis.
    pub fn record(&mut self, at: u64, value: u64)
        requires
            old(self).wf(),
        ensures
            final(self).wf(),
            final(self)@ == series_recorded(old(self)@, at, value),
            final(self)@.bins.len() <= BIN_CAP,
            old(self)@.bins.len() == 0 || at >= old(self)@.base ==> {
                let (was, is) = (old(self)@, final(self)@);
                &&& at < is.base + is.bins.len()
                &&& held_at(is, at as int) == Some(
                    bin_recorded(
                        match held_at(was, at as int) {
                            Some(values) => values,
                            None => Seq::empty(),
                        },
                        value,
                    ),
                )
                &&& forall|p: int|
                    p != at && p + BIN_CAP >= is.base + is.bins.len() ==> #[trigger] held_at(is, p)
                        == held_at(was, p)
            },
            old(self)@.bins.len() > 0 && at < old(self)@.base ==> final(self)@ == old(self)@,
    {
        let ghost start = self@;
        proof {
            assert(start.bins.len() == self.bins@.len());
            samples_are_kept(start, at, value);
        }
        if self.bins.len() == 0 {
            self.base_idx = at;
            let mut bin = Bin::new();
            bin.record(value);
            self.bins.push(Some(bin));
            assert(self@.bins =~= seq![Some(bin_recorded(Seq::empty(), value))]);
            return ;
        }
        if at < self.base_idx {
            return ;
        }
        let ghost whole = self.bins@;
        let ghost base = self.base_idx;
        let mut offset: u64 = at - self.base_idx;
        if offset >= BIN_CAP as u64 {
            self.drop_front(offset - (BIN_CAP as u64 - 1));
            offset = BIN_CAP as u64 - 1;
        }
        let ghost first = first_kept(start, at);
        assert(self.base_idx == first);
        assert(offset == at - first);
        let ghost kept = self.bins@;
        while (self.bins.len() as u64) <= offset
            invariant
                bins_ok(self.bins@),
                kept.len() <= self.bins@.len() <= BIN_CAP,
                offset < BIN_CAP,
                self.base_idx == first,
                forall|i: int| 0 <= i < kept.len() ==> self.bins@[i] == kept[i],
                forall|i: int| kept.len() <= i < self.bins@.len() ==> self.bins@[i] is None,
                self.bins@.len() <= kept.len() || self.bins@.len() <= offset + 1,
            decreases BIN_CAP - self.bins@.len(),
        {
            self.bins.push(None);
        }
        let ghost padded = self.bins@;
        let slot: usize = offset as usize;
        let mut held: Option<Bin> = None;
        std::mem::swap(&mut held, &mut self.bins[slot]);
        let mut bin = match held {
            Some(bin) => bin,
            None => Bin::new(),
        };
        bin.record(value);
        self.bins.set(slot, Some(bin));
        proof {
            let goal = series_recorded(start, at, value);
            assert(self.bins@ =~= padded.update(slot as int, Some(bin)));
            assert(self@.bins.len() == goal.bins.len());
            assert forall|i: int| 0 <= i < goal.bins.len() implies #[trigger] self@.bins[i]
                == goal.bins[i] by {
                let p = first + i;
                assert(bins_model(whole) == start.bins);
                if i < kept.len() {
                    assert(kept[i] == whole[i + (first - base)]);
                    assert(held_at(start, p) == start.bins[p - base]);
                } else {
                    assert(held_at(start, p) is None);
                }
                if i == slot {
                    assert(p == at);
                }
            }
            assert(self@.bins =~= goal.bins);
        }
    }

    /// Statistics over all bins.
    pub fn summary(&self, key: &Vec<(String, String)>, mode: AggMode) -> (r: SeriesSummary)
        requires
            self.wf(),
        ensures
            r@ == summary_of(key.model(), self@, mode),
    {
        let ghost bins = self@.bins;
        let mut count: u64 = 0;
        let mut sum: u128 = 0;
        let mut min_ns: u64 = u64::MAX;
        let mut max_ns: u64 = 0;
        let mut last_ns: u64 = 0;
        let mut i: usize = 0;
        assert(bins.take(0) =~= Seq::empty());
        while i < self.bins.len()
            invariant
                self.wf(),
                    bins == self@.bins,
                i <= self.bins@.len(),
                count == held_count(pooled(bins.take(i as int)).len()),
                sum == held_sum(sum_of(pooled(bins.take(i as int)))),
                min_ns == if count == 0 {
                    u64::MAX
                } else {
                    least(pooled(bins.take(i as int)))
                },
                max_ns == greatest(pooled(bins.take(i as int))),
                last_ns == bin_value(last_held(bins.take(i as int)), mode),
            decreases self.bins@.len() - i,
        {
            let ghost before = pooled(bins.take(i as int));
            proof {
                assert(bins.take(i + 1).drop_last() =~= bins.take(i as int));
                assert(bins.take(i + 1).last() == bins[i as int]);
            }
            if let Some(bin) = &self.bins[i] {
                proof {
                    let more = bin@.to_multiset();
                    bin@.to_multiset_ensures();
                    sum_of_union(before, more);
                    extremes_of_union(before, more);
                    assert(before.add(more).len() == before.len() + more.len());
                }
                count = count.saturating_add(bin.count);
                sum = sum.saturating_add(bin.sum_ns);
                if bin.min_ns < min_ns {
                    min_ns = bin.min_ns;
                }
                if bin.max_ns > max_ns {
                    max_ns = bin.max_ns;
                }
                last_ns = bin.aggregate(mode);
            }
            i = i + 1;
        }
        assert(bins.take(i as int) =~= bins);
        let avg_ns: u64 = if count == 0 {
            0
        } else {
            #[verifier::truncate]
            let avg: u64 = (sum / count as u128) as u64;
            avg
        };
        let min_ns: u64 = if count == 0 { 0 } else { min_ns };
        SeriesSummary { key: key.duplicate(), count, min_ns, max_ns, avg_ns, last_ns }
    }
}

/// Identity of a series: pairs of split keys and values, ascending by key.
pub type SeriesKey = Seq<(Text, Text)>;

/// All series, and how their bins lie on the time axis.
pub ghost struct StoreModel {
    /// Where the first bin begins, once a sample has come.
    pub origin_ns: Option<u64>,
    /// The width of a bin.
    pub window_ns: u64,
    /// The last position of the time axis that was reached.
    pub latest_bin_idx: u64,
    pub series: Map<SeriesKey, SeriesModel>,
}

/// A store without samples.
pub open spec fn wiped(m: StoreModel) -> StoreModel {
    StoreModel { origin_ns: None, latest_bin_idx: 0, series: Map::empty(), ..m }
}

/// The width of a bin for a window: the nearest number of nanoseconds, but at
/// least one. One second stands in for what is no positive number.
pub open spec fn window_ns_of(window: Double) -> u64 {
    if window.is_finite() && window.is_positive() {
        let product = times(window.bits, BILLION as nat);
        if product >= INFINITE {
            u64::MAX
        } else if whole_of(product) == 0 {
            1
        } else {
            sat64(whole_of(product))
        }
    } else {
        BILLION
    }
}

/// A window of one second is a billion nanoseconds wide.
pub proof fn one_second_is_a_billion()
    ensures
        window_ns_of(Double { bits: ONE }) == BILLION,
{
    one_is_one();
    assert(units_of_one() * BILLION as nat == BILLION as nat * units_of_one()) by (nonlinear_arith);
    whole_numbers_are_doubles(BILLION as nat);
}

/// The width of a bin for a window.
fn window_ns(window: Double) -> (r: u64)
    ensures
        r == window_ns_of(window),
        r > 0,
{
    if window.bits == 0 || window.bits >= INFINITE {
        return BILLION;
    }
    let product: u64 = times_of(window.bits, BILLION as u128);
    if product >= INFINITE {
        return u64::MAX;
    }
    let ns: u64 = whole_number(product);
    if ns == 0 {
        1
    } else {
        ns
    }
}

/// Where the first bin begins once a sample at `t` has come: half a window
/// before the first sample.
pub open spec fn origin_after(m: StoreModel, t: u64) -> u64 {
    match m.origin_ns {
        None => {
            let half = m.window_ns / 2;
            if t >= half {
                (t - half) as u64
            } else {
                0
            }
        },
        Some(origin) => origin,
    }
}

/// The store after a sample at time `t`. A sample from before the first bin
/// is ignored.
pub open spec fn store_recorded(m: StoreModel, key: SeriesKey, t: u64, value: u64) -> StoreModel {
    let origin = origin_after(m, t);
    if t < origin {
        StoreModel { origin_ns: Some(origin), ..m }
    } else {
        let at = ((t - origin) / m.window_ns as int) as u64;
        let held = if m.series.dom().contains(key) {
            m.series[key]
        } else {
            empty_series()
        };
        StoreModel {
            origin_ns: Some(origin),
            latest_bin_idx: if at > m.latest_bin_idx {
                at
            } else {
                m.latest_bin_idx
            },
            series: m.series.insert(key, series_recorded(held, at, value)),
            ..m
        }
    }
}

/// One summary for every series, ascending by key.
pub open spec fn summaries(m: StoreModel, mode: AggMode) -> Seq<SummaryModel> {
    listing(key_order::<Vec<(String, String)>>(), m.series.dom()).map_values(
        |key: SeriesKey| summary_of(key, m.series[key], mode),
    )
}

/// The bin at position `at` lies no further before the latest than the chart
/// reaches.
pub open spec fn within_reach(m: StoreModel, at: int, reach: Double) -> bool {
    covers(reach, (m.latest_bin_idx - at) * m.window_ns)
}

/// A bin that is no older than the latest is always within reach.
proof fn reach_of_the_latest(m: StoreModel, at: int, back: u64, reach: Double)
    requires
        back as int == if at <= m.latest_bin_idx {
            m.latest_bin_idx - at
        } else {
            0
        },
    ensures
        within_reach(m, at, reach) == covers(reach, back * m.window_ns),
{
    if at > m.latest_bin_idx {
        let (l, w) = (m.latest_bin_idx, m.window_ns);
        assert((l - at) * w <= 0) by (nonlinear_arith)
            requires
                at > l,
                w >= 0,
        ;
        assert(0 * w == 0);
        nothing_is_covered_first(reach, (l - at) * w);
    }
}

/// What takes no time is covered where anything is.
proof fn nothing_is_covered_first(reach: Double, ns: int)
    requires
        ns <= 0,
    ensures
        covers(reach, ns) == covers(reach, 0),
{
    let (one, u) = (units_of_one(), units(reach.bits as nat));
    assert(ns * one <= u * BILLION && 0 * one <= u * BILLION) by (nonlinear_arith)
        requires
            ns <= 0,
            one >= 0,
            u >= 0,
            BILLION >= 0,
    ;
}

/// The points of the first `n` bins of a series that the chart reaches: how
/// many bins before the latest, and the value.
pub open spec fn points_of(
    m: StoreModel,
    s: SeriesModel,
    n: int,
    reach: Double,
    mode: AggMode,
) -> Seq<(u64, u64)>
    decreases n,
{
    if n <= 0 {
        Seq::empty()
    } else {
        let rest = points_of(m, s, n - 1, reach, mode);
        let at = s.base + n - 1;
        match s.bins[n - 1] {
            Some(values) => if within_reach(m, at, reach) {
                rest.push(
                    (
                        if m.latest_bin_idx >= at {
                            (m.latest_bin_idx - at) as u64
                        } else {
                            0
                        },
                        bin_value(values, mode),
                    ),
                )
            } else {
                rest
            },
            None => rest,
        }
    }
}

/// The first sample sets where the bins begin, half a window before it, so that
/// it falls into the first bin; no later sample moves them.
pub proof fn bins_begin_at_the_first_sample(m: StoreModel, key: SeriesKey, t: u64, value: u64)
    requires
        m.window_ns > 0,
        m.origin_ns is None,
    ensures
        ({
            let first = store_recorded(m, key, t, value);
            let origin = first.origin_ns->0;
            &&& first.origin_ns is Some
            &&& origin <= t < origin + m.window_ns
            &&& t >= m.window_ns / 2 ==> origin == t - m.window_ns / 2
            &&& forall|k: SeriesKey, u: u64, v: u64|
                (#[trigger] store_recorded(first, k, u, v)).origin_ns == first.origin_ns
        }),
{
}

/// No point lies beyond the reach of the chart.
pub proof fn points_lie_within_reach(
    m: StoreModel,
    s: SeriesModel,
    n: int,
    reach: Double,
    mode: AggMode,
)
    ensures
        forall|i: int|
            0 <= i < points_of(m, s, n, reach, mode).len() ==> covers(
                reach,
                (#[trigger] points_of(m, s, n, reach, mode)[i]).0 * m.window_ns,
            ),
    decreases n,
{
    if n > 0 {
        let rest = points_of(m, s, n - 1, reach, mode);
        let all = points_of(m, s, n, reach, mode);
        points_lie_within_reach(m, s, n - 1, reach, mode);
        let at = s.base + n - 1;
        assert forall|i: int| 0 <= i < all.len() implies covers(
            reach,
            (#[trigger] all[i]).0 * m.window_ns,
        ) by {
            if i < rest.len() {
                assert(all[i] == rest[i]);
            } else {
                reach_of_the_latest(m, at, all[i].0, reach);
            }
        }
    }
}

/// The points of one series.
#[derive(Debug, Clone)]
pub struct SeriesProjection {
    pub key: Vec<(String, String)>,
    /// For every bin with samples, oldest first: how many bins it lies before
    /// the latest, and its value in nanoseconds.
    pub points: Vec<(u64, u64)>,
}

/// All series, and how their bins lie on the time axis.
pub struct GraphSeriesStore {
    origin_ns: Option<u64>,
    window_ns: u64,
    latest_bin_idx: u64,
    pub series: SortedMap<Vec<(String, String)>, Series>,
}

impl View for GraphSeriesStore {
    type V = StoreModel;

    closed spec fn view(&self) -> StoreModel {
        StoreModel {
            origin_ns: self.origin_ns,
            window_ns: self.window_ns,
            latest_bin_idx: self.latest_bin_idx,
            series: self.series@.map_values(|s: Series| s@),
        }
    }
}

impl GraphSeriesStore {
    pub closed spec fn wf(&self) -> bool {
        &&& self.window_ns > 0
        &&& self.series.wf()
        &&& forall|k: SeriesKey| #[trigger]
            self.series@.dom().contains(k) ==> self.series@[k].wf()
    }

    pub fn new(window: Double) -> (s: Self)
        ensures
            s.wf(),
            s@ == (StoreModel {
                origin_ns: None,
                window_ns: window_ns_of(window),
                latest_bin_idx: 0,
                series: Map::empty(),
            }),
    {
        let window_ns: u64 = window_ns(window);
        let s = GraphSeriesStore {
            origin_ns: None,
            window_ns,
            latest_bin_idx: 0,
            series: SortedMap::new(),
        };
        assert(s@.series =~= Map::empty());
        s
    }

    /// The bins have a width, and no series keeps more bins than it may.
    pub proof fn series_stay_bounded(&self)
        requires
            self.wf(),
        ensures
            self@.window_ns > 0,
            forall|k: SeriesKey| #[trigger]
                self@.series.dom().contains(k) ==> self@.series[k].bins.len() <= BIN_CAP,
    {
        assert forall|k: SeriesKey| #[trigger] self@.series.dom().contains(k) implies self@.series[k].bins.len()
            <= BIN_CAP by {
            assert(self.series@.dom().contains(k));
            assert(self.series@[k].wf());
        }
    }

    /// The listing of the keys lists them all, once.
    pub proof fn keys_listed(&self)
        requires
            self.wf(),
        ensures
            ({
                let keys = listing(key_order::<Vec<(String, String)>>(), self@.series.dom());
                keys.no_duplicates() && keys.to_set() == self@.series.dom()
            }),
    {
        self.series.listed_is_listing();
        assert(self@.series.dom() =~= self.series@.dom());
    }

    /// The width of a bin, in seconds.
    pub fn window_secs(&self) -> (r: Double)
        ensures
            r.bits == ratio(whole_double(self@.window_ns as nat, 1), BILLION as nat),
    {
        Double { bits: ratio_of(whole_double_of(self.window_ns as u128), BILLION) }
    }

    /// Adds a sample to a series.
    pub fn record(&mut self, series_key: Vec<(String, String)>, t_ns: u64, value: u64)
        requires
            old(self).wf(),
        ensures
            final(self).wf(),
            final(self)@ == store_recorded(old(self)@, series_key.model(), t_ns, value),
    {
        let ghost start = self@;
        let ghost key = series_key.model();
        let origin: u64 = match self.origin_ns {
            Some(origin) => origin,
            None => t_ns.saturating_sub(self.window_ns / 2),
        };
        self.origin_ns = Some(origin);
        if t_ns < origin {
            return ;
        }
        let at: u64 = (t_ns - origin) / self.window_ns;
        if at > self.latest_bin_idx {
            self.latest_bin_idx = at;
        }
        let ghost before = self.series@;
        let mut held = match self.series.remove(&series_key) {
            Some(series) => series,
            None => Series::new(),
        };
        held.record(at, value);
        self.series.insert(series_key, held);
        proof {
            assert(self.series@ =~= before.insert(key, held));
            assert(self@.series =~= store_recorded(start, key, t_ns, value).series);
        }
    }

    /// Discards all samples.
    pub fn wipe(&mut self)
        requires
            old(self).wf(),
        ensures
            final(self).wf(),
            final(self)@ == wiped(old(self)@),
    {
        self.series = SortedMap::new();
        self.origin_ns = None;
        self.latest_bin_idx = 0;
        assert(self@.series =~= Map::empty());
    }

    /// Discards all samples and changes the width of the bins.
    pub fn reset_window(&mut self, window: Double)
        requires
            old(self).wf(),
        ensures
            final(self).wf(),
            final(self)@ == wiped(
                StoreModel { window_ns: window_ns_of(window), ..old(self)@ },
            ),
    {
        self.window_ns = window_ns(window);
        self.wipe();
    }

    /// One summary for every series, ascending by key.
    pub fn series_summary(&self, agg: AggMode) -> (r: Vec<SeriesSummary>)
        requires
            self.wf(),
        ensures
            r@.map_values(|s: SeriesSummary| s@) == summaries(self@, agg),
    {
        let mut out: Vec<SeriesSummary> = Vec::new();
        let mut i: usize = 0;
        while i < self.series.len()
            invariant
                self.wf(),
                i <= self.series.listed().len(),
                out@.len() == i,
                forall|j: int|
                    0 <= j < i ==> (#[trigger] out@[j])@ == summary_of(
                        self.series.listed()[j],
                        self@.series[self.series.listed()[j]],
                        agg,
                    ),
            decreases self.series.listed().len() - i,
        {
            let key = self.series.key_at(i);
            let series = self.series.value_at(i);
            out.push(series.summary(key, agg));
            i = i + 1;
        }
        proof {
            self.series.listed_is_listing();
            assert(self@.series.dom() =~= self.series@.dom());
            assert(out@.map_values(|s: SeriesSummary| s@) =~= summaries(self@, agg));
        }
        out
    }

    /// So many bins lie within the reach of the chart.
    fn reaches(&self, bins: u64, reach: Double) -> (r: bool)
        ensures
            r == covers(reach, bins * self@.window_ns),
    {
        let (n, wide): (u128, u128) = (bins as u128, self.window_ns as u128);
        assert(n * wide <= 0xffff_ffff_ffff_ffff * 0xffff_ffff_ffff_ffff) by (nonlinear_arith)
            requires
                n <= 0xffff_ffff_ffff_ffff,
                wide <= 0xffff_ffff_ffff_ffff,
        ;
        is_covered(reach, n * wide)
    }

    /// The points of every series, ascending by key, as far back as the chart
    /// reaches.
    pub fn project(&self, agg: AggMode, reach: Double) -> (r: Vec<SeriesProjection>)
        requires
            self.wf(),
        ensures
            r@.len() == self@.series.dom().len(),
            ({
                let keys = listing(key_order::<Vec<(String, String)>>(), self@.series.dom());
                forall|j: int|
                    0 <= j < r@.len() ==> {
                        &&& (#[trigger] r@[j]).key.model() == keys[j]
                        &&& r@[j].points@ == points_of(
                            self@,
                            self@.series[keys[j]],
                            self@.series[keys[j]].bins.len() as int,
                            reach,
                            agg,
                        )
                    }
            }),
    {
        let mut out: Vec<SeriesProjection> = Vec::new();
        let mut i: usize = 0;
        while i < self.series.len()
            invariant
                self.wf(),
                i <= self.series.listed().len(),
                out@.len() == i,
                forall|j: int|
                    0 <= j < i ==> {
                        let key = self.series.listed()[j];
                        &&& (#[trigger] out@[j]).key.model() == key
                        &&& out@[j].points@ == points_of(
                            self@,
                            self@.series[key],
                            self@.series[key].bins.len() as int,
                            reach,
                            agg,
                        )
                    },
            decreases self.series.listed().len() - i,
        {
            let key = self.series.key_at(i);
            let series = self.series.value_at(i);
            let ghost model = series@;
            let mut points: Vec<(u64, u64)> = Vec::new();
            let mut b: usize = 0;
            while b < series.bins.len()
                invariant
                    series.wf(),
                    model == series@,
                    b <= series.bins@.len(),
                    points@ == points_of(self@, model, b as int, reach, agg),
                decreases series.bins@.len() - b,
            {
                let at: u64 = series.base_idx + b as u64;
                assert(model.bins[b as int] == bins_model(series.bins@)[b as int]);
                if let Some(bin) = &series.bins[b] {
                    let back: u64 = self.latest_bin_idx.saturating_sub(at);
                    proof {
                        reach_of_the_latest(self@, at as int, back, reach);
                    }
                    if self.reaches(back, reach) {
                        points.push((back, bin.aggregate(agg)));
                    }
                }
                b = b + 1;
            }
            out.push(SeriesProjection { key: key.duplicate(), points });
            i = i + 1;
        }
        proof {
            self.series.listed_is_listing();
            assert(self@.series.dom() =~= self.series@.dom());
            self.series.listed().unique_seq_to_set();
        }
        out
    }
}

} // verus!
