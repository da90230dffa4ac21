//! A rolling count of how often something happens.

use vstd::prelude::*;

use crate::pattern::{ratio, ratio_of, Double};

verus! {

/// How many half seconds are counted: the current one and four seconds of
/// completed ones.
pub const BUCKETS: usize = 9;

/// The length of a bucket in nanoseconds.
pub const BUCKET_NS: u64 = 500_000_000;

/// Counts per half second, as a ring.
#[derive(Debug)]
pub struct RateTracker {
    /// `head` indexes the current half second; the one after it is the
    /// oldest.
    buckets: Vec<u32>,
    head: usize,
    /// When the current half second began.
    bucket_start: Option<u64>,
}

/// Counts per half second, the current one first.
pub ghost struct RateModel {
    pub recent: Seq<u32>,
    pub started: Option<u64>,
}

/// How many half seconds have passed.
pub open spec fn half_seconds(start: u64, now: u64) -> int {
    if now >= start {
        (now - start) / BUCKET_NS as int
    } else {
        0
    }
}

/// The counts after `k` half seconds without any: none are left once `k` is
/// the number of buckets.
pub open spec fn shifted(recent: Seq<u32>, k: int) -> Seq<u32> {
    Seq::new(
        recent.len(),
        |i: int|
            if i < k {
                0u32
            } else {
                recent[i - k]
            },
    )
}

/// One more in the current half second, held at the greatest count.
pub open spec fn counted(recent: Seq<u32>) -> Seq<u32> {
    recent.update(
        0,
        if recent[0] < u32::MAX {
            (recent[0] + 1) as u32
        } else {
            recent[0]
        },
    )
}

/// The counts after one more at `now`.
pub open spec fn rate_recorded(m: RateModel, now: u64) -> RateModel {
    match m.started {
        None => RateModel { recent: counted(m.recent), started: Some(now) },
        Some(start) => {
            let k = half_seconds(start, now);
            RateModel {
                recent: counted(shifted(m.recent, k)),
                started: Some((start + k * BUCKET_NS) as u64),
            }
        },
    }
}

/// The sum of the first `n` counts after the current one.
pub open spec fn completed(recent: Seq<u32>, n: nat) -> nat
    decreases n,
{
    if n == 0 {
        0
    } else {
        completed(recent, (n - 1) as nat) + recent[n as int] as nat
    }
}

/// Where the count of `k` half seconds ago stands in the ring.
spec fn slot(head: int, k: int) -> int {
    if k <= head {
        head - k
    } else {
        head + BUCKETS - k
    }
}

impl View for RateTracker {
    type V = RateModel;

    closed spec fn view(&self) -> RateModel {
        RateModel {
            recent: Seq::new(
                BUCKETS as nat,
                |k: int| self.buckets@[slot(self.head as int, k)],
            ),
            started: self.bucket_start,
        }
    }
}

impl Default for RateTracker {
    fn default() -> (r: Self)
        ensures
            r.wf(),
            r@ == (RateModel { recent: Seq::new(BUCKETS as nat, |i: int| 0u32), started: None }),
    {
        RateTracker::new()
    }
}

impl RateTracker {
    pub closed spec fn wf(&self) -> bool {
        &&& self.buckets@.len() == BUCKETS
        &&& self.head < BUCKETS
    }

    /// There is one count for each half second that is looked at.
    pub proof fn counts_are_complete(&self)
        requires
            self.wf(),
        ensures
            self@.recent.len() == BUCKETS,
    {
    }

    pub fn new() -> (r: Self)
        ensures
            r.wf(),
            r@ == (RateModel { recent: Seq::new(BUCKETS as nat, |i: int| 0u32), started: None }),
    {
        let mut buckets: Vec<u32> = Vec::new();
        let mut i: usize = 0;
        while i < BUCKETS
            invariant
                i <= BUCKETS,
                buckets@.len() == i,
                forall|j: int| 0 <= j < i ==> buckets@[j] == 0,
            decreases BUCKETS - i,
        {
            buckets.push(0);
            i = i + 1;
        }
        let r = RateTracker { buckets, head: 0, bucket_start: None };
        assert(r@.recent =~= Seq::new(BUCKETS as nat, |i: int| 0u32));
        r
    }

    /// Counts one at `now`, a reading of a monotonic clock in nanoseconds.
    pub fn record(&mut self, now: u64)
        requires
            old(self).wf(),
        ensures
            final(self).wf(),
            final(self)@ == rate_recorded(old(self)@, now),
    {
        let ghost before = self@.recent;
        match self.bucket_start {
            None => {
                self.bucket_start = Some(now);
            },
            Some(start) => {
                let elapsed: u64 = now.saturating_sub(start);
                let passed: u64 = elapsed / BUCKET_NS;
                let advances: u64 = if passed <= 9 { passed } else { 9 };
                let mut i: u64 = 0;
                assert(self@.recent =~= shifted(before, 0));
                while i < advances
                    invariant
                        i <= advances <= 9,
                        self.wf(),
                        before.len() == BUCKETS,
                        self@.recent == shifted(before, i as int),
                        self.bucket_start == old(self).bucket_start,
                    decreases advances - i,
                {
                    let ghost then = self@.recent;
                    let ghost head = self.head as int;
                    let ghost ring = self.buckets@;
                    let next: usize = if self.head + 1 < BUCKETS { self.head + 1 } else { 0 };
                    self.head = next;
                    self.buckets.set(next, 0);
                    proof {
                        assert forall|k: int| 0 <= k < BUCKETS implies #[trigger] self@.recent[k]
                            == shifted(before, i + 1)[k] by {
                            if k > 0 {
                                assert(slot(next as int, k) == slot(head, k - 1));
                                assert(slot(next as int, k) != next as int);
                                assert(then[k - 1] == ring[slot(head, k - 1)]);
                            }
                        }
                        assert(self@.recent =~= shifted(before, i + 1));
                    }
                    i = i + 1;
                }
                proof {
                    assert(passed == half_seconds(start, now));
                    assert(self@.recent =~= shifted(before, passed as int));
                    assert(passed * BUCKET_NS <= elapsed) by (nonlinear_arith)
                        requires
                            passed == elapsed / BUCKET_NS,
                            BUCKET_NS > 0,
                    ;
                }
                self.bucket_start = Some(start + passed * BUCKET_NS);
            },
        }
        let ghost settled = self@.recent;
        let ghost ring = self.buckets@;
        let at: usize = self.head;
        let n: u32 = self.buckets[at].saturating_add(1);
        self.buckets.set(at, n);
        proof {
            assert(settled[0] == ring[slot(at as int, 0)]);
            assert forall|k: int| 0 < k < BUCKETS implies #[trigger] self@.recent[k]
                == settled[k] by {
                assert(slot(at as int, k) != at);
                assert(settled[k] == ring[slot(at as int, k)]);
            }
            assert(self@.recent =~= counted(settled));
        }
    }

    /// How many came in the completed half seconds; none before anything was
    /// counted.
    pub fn completed_count(&self) -> (sum: u64)
        requires
            self.wf(),
        ensures
            sum == if self@.started is None {
                0
            } else {
                completed(self@.recent, 8)
            },
            sum <= 8 * 0xffff_ffff,
    {
        if self.bucket_start.is_none() {
            return 0;
        }
        let mut sum: u64 = 0;
        let mut k: usize = 0;
        while k < 8
            invariant
                self.wf(),
                k <= 8,
                sum == completed(self@.recent, k as nat),
                sum <= k * 0xffff_ffff,
            decreases 8 - k,
        {
            k = k + 1;
            let at: usize = if k <= self.head { self.head - k } else { self.head + BUCKETS - k };
            assert(self@.recent[k as int] == self.buckets@[at as int]);
            sum = sum + self.buckets[at] as u64;
        }
        sum
    }

    /// The rate per second over the completed half seconds, which are four
    /// seconds; zero before anything was counted.
    pub fn rate_hz(&self) -> (r: Double)
        requires
            self.wf(),
        ensures
            r.bits == ratio(
                if self@.started is None {
                    0
                } else {
                    completed(self@.recent, 8)
                },
                4,
            ),
    {
        Double { bits: ratio_of(self.completed_count() as u128, 4) }
    }
}

/// The window slides with the clock, however long the pause: after a count the
/// current half second is the one in which it came, and what came nine or more
/// half seconds before counts no more.
pub proof fn window_slides_with_the_clock(m: RateModel, now: u64)
    requires
        m.recent.len() == BUCKETS,
    ensures
        ({
            let after = rate_recorded(m, now);
            let start = after.started->0;
            &&& after.started is Some
            &&& m.started is None || m.started->0 <= now ==> start <= now < start + BUCKET_NS
            &&& m.started is Some && half_seconds(m.started->0, now) >= BUCKETS ==> {
                &&& after.recent[0] == 1
                &&& forall|i: int| 0 < i < BUCKETS ==> (#[trigger] after.recent[i]) == 0
                &&& completed(after.recent, 8) == 0
            }
        }),
{
    let after = rate_recorded(m, now);
    if let Some(start) = m.started {
        let k = half_seconds(start, now);
        if start <= now {
            let gap = now - start;
            assert(k * BUCKET_NS <= gap < k * BUCKET_NS + BUCKET_NS) by (nonlinear_arith)
                requires
                    k == gap / BUCKET_NS as int,
                    BUCKET_NS == 500_000_000,
            ;
        }
        if k >= BUCKETS {
            assert forall|i: int| 0 < i < BUCKETS implies (#[trigger] after.recent[i]) == 0 by {
                assert(shifted(m.recent, k)[i] == 0);
            }
            assert(completed(after.recent, 8) == 0) by {
                reveal_with_fuel(completed, 9);
            }
        }
    }
}

/// One more is counted in the half second in which it comes. The counts of
/// earlier half seconds keep their distance to it, those without any count
/// nothing, and what is too old is forgotten.
pub proof fn counts_keep_their_distance(m: RateModel, now: u64, k: int, i: int)
    requires
        m.recent.len() == BUCKETS,
        m.started is Some,
        m.started->0 <= now,
        0 <= k,
        k * BUCKET_NS <= now - m.started->0 < (k + 1) * BUCKET_NS,
        0 <= i < BUCKETS,
    ensures
        ({
            let after = rate_recorded(m, now);
            let was = if i < k {
                0u32
            } else {
                m.recent[i - k]
            };
            &&& after.recent.len() == BUCKETS
            &&& after.started == Some((m.started->0 + k * BUCKET_NS) as u64)
            &&& i > 0 ==> after.recent[i] == was
            &&& i == 0 && was < u32::MAX ==> after.recent[i] == was + 1
        }),
{
    let d = now - m.started->0;
    let n = BUCKET_NS as int;
    let q = d / n;
    assert(q == k) by (nonlinear_arith)
        requires
            q == d / n,
            n > 0,
            k * n <= d < (k + 1) * n,
    ;
}

/// The rate is that of the four seconds before the current half second: the
/// eight counts before it together.
pub proof fn the_rate_covers_four_seconds(recent: Seq<u32>)
    requires
        recent.len() == BUCKETS,
    ensures
        8 * BUCKET_NS == 4_000_000_000,
        completed(recent, 8) == recent[1] + recent[2] + recent[3] + recent[4] + recent[5]
            + recent[6] + recent[7] + recent[8],
{
    reveal_with_fuel(completed, 9);
}

} // verus!
