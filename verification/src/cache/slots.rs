//! The slots in which the open spans of a lane are kept.

use slab::Slab;
use vstd::prelude::*;

use crate::cache::record::{SpanRecord, SpanRecordModel};

verus! {

#[verifier::external_type_specification]
#[verifier::external_body]
#[verifier::reject_recursive_types(T)]
pub struct ExSlab<T>(Slab<T>);

/// What a slab holds, by key.
pub uninterp spec fn slab_slots(slab: Slab<u64>) -> Map<usize, u64>;

/// How many keys a slab has handed out so far, those that were freed and
/// handed out again counted once. All its keys are below this.
pub uninterp spec fn slab_reach(slab: Slab<u64>) -> nat;

/// What an empty slab holds.
pub open spec fn no_slots() -> Map<usize, u64> {
    Map::empty()
}

/// `Slab::with_capacity` makes a slab that holds nothing. The capacity only
/// sets memory aside. It does not take one whose size in bytes cannot be
/// told.
#[verifier::external_body]
fn slab_with_capacity(capacity: usize) -> (r: Slab<u64>)
    requires
        has_room(capacity),
    ensures
        slab_slots(r) == no_slots(),
        slab_reach(r) == 0,
{
    Slab::with_capacity(capacity)
}

/// `Slab::len` tells how many values the slab holds.
#[verifier::external_body]
fn slab_len(slab: &Slab<u64>) -> (n: usize)
    ensures
        n == slab_slots(*slab).dom().len(),
        n <= slab_reach(*slab),
{
    slab.len()
}

/// `Slab::insert` keeps a value under a key that was free and returns the
/// key. It takes a key that was handed out before while one is free, and the
/// next one otherwise.
#[verifier::external_body]
fn slab_insert(slab: &mut Slab<u64>, value: u64) -> (key: usize)
    ensures
        !slab_slots(*old(slab)).dom().contains(key),
        slab_slots(*final(slab)) == slab_slots(*old(slab)).insert(key, value),
        slab_slots(*old(slab)).dom().len() < slab_reach(*old(slab)) ==> key < slab_reach(*old(slab))
            && slab_reach(*final(slab)) == slab_reach(*old(slab)),
        slab_slots(*old(slab)).dom().len() >= slab_reach(*old(slab)) ==> key == slab_reach(
            *old(slab),
        ) && slab_reach(*final(slab)) == slab_reach(*old(slab)) + 1,
{
    slab.insert(value)
}

/// `Slab::try_remove` takes out the value under a key, if there is one.
#[verifier::external_body]
fn slab_try_remove(slab: &mut Slab<u64>, key: usize) -> (r: Option<u64>)
    ensures
        match r {
            Some(v) => slab_slots(*old(slab)).dom().contains(key) && v == slab_slots(
                *old(slab),
            )[key],
            None => !slab_slots(*old(slab)).dom().contains(key),
        },
        slab_slots(*final(slab)) == slab_slots(*old(slab)).remove(key),
        slab_reach(*final(slab)) == slab_reach(*old(slab)),
{
    slab.try_remove(key)
}

/// The most slots that a lane may have. No machine has memory for more.
pub const MAX_SLOTS: u64 = 0x1000_0000_0000;

/// As many slots are not more than can be addressed.
pub open spec fn has_room(capacity: usize) -> bool {
    capacity <= MAX_SLOTS && capacity <= usize::MAX / 64
}

/// The slots of a lane.
pub struct ShardLane {
    /// Tells which slots are taken, and the id of the span in each.
    slab: Slab<u64>,
    /// The id of the span that was last put into each slot; zero where there
    /// was none yet.
    actual_ids: Vec<u64>,
    /// The spans in the slots that are taken.
    records: Vec<Option<SpanRecord>>,
}

pub ghost struct LaneModel {
    /// The open spans, by slot.
    pub spans: Map<int, SpanRecordModel>,
    /// The id of the span that was last put into each slot.
    pub last_ids: Seq<u64>,
}

/// A lane that was never used.
pub open spec fn empty_lane(capacity: nat) -> LaneModel {
    LaneModel { spans: Map::empty(), last_ids: Seq::new(capacity, |i: int| 0u64) }
}

impl View for ShardLane {
    type V = LaneModel;

    closed spec fn view(&self) -> LaneModel {
        LaneModel {
            spans: Map::new(
                |i: int| 0 <= i < self.records@.len() && self.records@[i] is Some,
                |i: int| self.records@[i]->0@,
            ),
            last_ids: self.actual_ids@,
        }
    }
}

impl ShardLane {
    pub closed spec fn wf(&self) -> bool {
        let slots = slab_slots(self.slab);
        &&& self.actual_ids@.len() == self.records@.len()
        &&& slab_reach(self.slab) <= self.records@.len()
        &&& forall|i: usize| #[trigger]
            slots.dom().contains(i) <==> i < self.records@.len() && self.records@[i as int] is Some
    }

    pub fn new(capacity: usize) -> (r: Self)
        requires
            has_room(capacity),
        ensures
            r.wf(),
            r@ == empty_lane(capacity as nat),
    {
        let mut actual_ids: Vec<u64> = Vec::new();
        let mut records: Vec<Option<SpanRecord>> = Vec::new();
        let mut i: usize = 0;
        while i < capacity
            invariant
                i <= capacity,
                actual_ids@.len() == i,
                records@.len() == i,
                forall|j: int| 0 <= j < i ==> (#[trigger] actual_ids@[j]) == 0,
                forall|j: int| 0 <= j < i ==> (#[trigger] records@[j]) is None,
            decreases capacity - i,
        {
            actual_ids.push(0);
            records.push(None);
            i = i + 1;
        }
        let r = ShardLane { slab: slab_with_capacity(capacity), actual_ids, records };
        assert(r@.spans =~= Map::empty());
        assert(r@.last_ids =~= empty_lane(capacity as nat).last_ids);
        r
    }

    /// How many spans are open.
    pub fn len(&self) -> (n: usize)
        requires
            self.wf(),
        ensures
            self@.spans.dom().finite(),
            n == self@.spans.dom().len(),
            n <= self@.last_ids.len(),
    {
        let n: usize = slab_len(&self.slab);
        proof {
            self.counts_agree();
        }
        n
    }

    /// As many spans are open as slots are taken.
    proof fn counts_agree(&self)
        requires
            self.wf(),
        ensures
            self@.spans.dom().finite(),
            self@.spans.dom().len() == slab_slots(self.slab).dom().len(),
    {
        let slots = slab_slots(self.slab).dom();
        let open = self@.spans.dom();
        let bound: usize = self.records.len();
        assert(bound == self.records@.len());
        let all = vstd::set_lib::set_int_range(0, self.records@.len() as int);
        vstd::set_lib::lemma_int_range(0, self.records@.len() as int);
        assert(open.subset_of(all));
        vstd::set_lib::lemma_set_subset_finite(all, open);
        let f = |i: int| i as usize;
        assert(open.map(f) =~= slots) by {
            assert forall|i: usize| open.map(f).contains(i) == slots.contains(i) by {
                if open.map(f).contains(i) {
                    let k = choose|k: int| open.contains(k) && f(k) == i;
                    assert(open.contains(k));
                }
                if slots.contains(i) {
                    assert(open.contains(i as int) && f(i as int) == i);
                }
            }
        }
        vstd::set_lib::lemma_map_size(open, slots, f);
    }

    /// Puts a span into a free slot. There must be one.
    pub fn insert(&mut self, record: SpanRecord) -> (slot: usize)
        requires
            old(self).wf(),
            old(self)@.spans.dom().len() < old(self)@.last_ids.len(),
            old(self)@.spans.dom().finite(),
        ensures
            final(self).wf(),
            slot < old(self)@.last_ids.len(),
            !old(self)@.spans.dom().contains(slot as int),
            final(self)@ == (LaneModel {
                spans: old(self)@.spans.insert(slot as int, record@),
                last_ids: old(self)@.last_ids.update(slot as int, record.id),
            }),
    {
        let ghost before = self@;
        let _taken: usize = slab_len(&self.slab);
        proof {
            self.counts_agree();
        }
        let id: u64 = record.id;
        let slot: usize = slab_insert(&mut self.slab, id);
        self.actual_ids.set(slot, id);
        self.records.set(slot, Some(record));
        assert(self@.spans =~= before.spans.insert(slot as int, record@));
        slot
    }

    /// Records values for the span in a slot, if there is one.
    pub fn record(&mut self, slot: u64, values: &crate::cache::record::FieldList)
        requires
            old(self).wf(),
        ensures
            final(self).wf(),
            final(self)@ == recorded_in(
                old(self)@,
                slot as int,
                crate::cache::record::values_model(values@),
            ),
    {
        let ghost before = self@;
        if slot < self.records.len() as u64 {
            let at: usize = slot as usize;
            let mut held: Option<SpanRecord> = None;
            std::mem::swap(&mut held, &mut self.records[at]);
            if let Some(rec) = held {
                let mut span = rec;
                let ghost old_span = span@;
                crate::cache::record::set_fields(&mut span.fields, values);
                self.records.set(at, Some(span));
                assert(self@.spans =~= before.spans.insert(
                    slot as int,
                    SpanRecordModel {
                        fields: crate::cache::record::fields_set(
                            old_span.fields,
                            crate::cache::record::values_model(values@),
                        ),
                        ..old_span
                    },
                ));
            } else {
                assert(self@.spans =~= before.spans);
            }
        }
    }

    /// Takes the span out of a slot, if there is one.
    pub fn try_remove(&mut self, slot: u64) -> (r: Option<SpanRecord>)
        requires
            old(self).wf(),
        ensures
            final(self).wf(),
            final(self)@ == (LaneModel {
                spans: old(self)@.spans.remove(slot as int),
                ..old(self)@
            }),
            match r {
                Some(span) => old(self)@.spans.dom().contains(slot as int) && span@ == old(
                    self,
                )@.spans[slot as int],
                None => !old(self)@.spans.dom().contains(slot as int),
            },
    {
        let ghost before = self@;
        if slot >= self.records.len() as u64 {
            assert(self@.spans =~= before.spans.remove(slot as int));
            return None;
        }
        let at: usize = slot as usize;
        let taken = slab_try_remove(&mut self.slab, at);
        if taken.is_none() {
            assert(slab_slots(self.slab) =~= slab_slots(old(self).slab));
            assert(self@.spans =~= before.spans.remove(slot as int));
            return None;
        }
        let mut held: Option<SpanRecord> = None;
        std::mem::swap(&mut held, &mut self.records[at]);
        assert(self@.spans =~= before.spans.remove(slot as int));
        held
    }

    /// The id of the span that was last put into a slot.
    pub fn last_id(&self, slot: u64) -> (id: u64)
        requires
            self.wf(),
            slot < self@.last_ids.len(),
        ensures
            id == self@.last_ids[slot as int],
    {
        let n: usize = self.actual_ids.len();
        assert(slot < n);
        self.actual_ids[slot as usize]
    }
}

/// A lane after values have been recorded for the span in a slot.
pub open spec fn recorded_in(
    lane: LaneModel,
    slot: int,
    values: Seq<(crate::protocol::Text, crate::cache::record::ValueModel)>,
) -> LaneModel {
    if lane.spans.dom().contains(slot) {
        let span = lane.spans[slot];
        LaneModel {
            spans: lane.spans.insert(
                slot,
                SpanRecordModel {
                    fields: crate::cache::record::fields_set(span.fields, values),
                    ..span
                },
            ),
            ..lane
        }
    } else {
        lane
    }
}

} // verus!
