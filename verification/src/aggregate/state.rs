//! The rolling window itself.

use std::collections::VecDeque;

use vstd::prelude::*;

use crate::aggregate::bucket::BucketState;
use crate::aggregate::laws::{
    count_finds, count_is_small, count_push, count_remove, same_spans_count, window_count,
};
use crate::aggregate::ring::{
    absorbed, admitted, all_absorbed, all_parked, as_pairs, bucket_for, buckets_of,
    child_bucket, child_sum_of, credited, credited_each, debited, empty_window, has_id,
    index_of_id, is_lowest_parent, is_newest, joined, joined_ids, lookup, lowest_parent,
    names_id, new_bucket, newest_is_only, not_waiting_for, occupied, own_splits,
    parents_missing, parked, pending_cap, rebucketed, rebucketed_keeps_spans, resplit, restored,
    root_bucket, rows_model, rows_of, settled, settled_ids, settled_keeps_settings,
    shares_after_push, shares_after_remove, shares_after_update, shares_count, shares_in,
    snapshot_of, span_total, waiting_for, with_room, with_room_keeps, without_oldest, AggModel,
    EntryModel, SnapshotModel,
};
use crate::aggregate::types::{stats_of, BucketKey, KeyModel, StackStats};
use crate::order::Key;
use crate::protocol::{fields_model, first_named, SpanModel, Text, WireFieldValue, WireSpan};
use crate::sorted::{SortedMap, SortedSet};

verus! {

/// A span in the window.
pub struct Entry {
    span: WireSpan,
    bucket: BucketKey,
    total_ns: u64,
    child_sum: u64,
}

impl View for Entry {
    type V = EntryModel;

    closed spec fn view(&self) -> EntryModel {
        EntryModel {
            span: self.span@,
            bucket: self.bucket.model(),
            child_sum: self.child_sum,
        }
    }
}

/// What the entries stand for.
spec fn ring_model(entries: Seq<Box<Entry>>) -> Seq<EntryModel> {
    entries.map_values(|e: Box<Entry>| e@)
}

/// Every entry knows how long its span was open.
spec fn timed(entries: Seq<Box<Entry>>) -> bool {
    forall|i: int|
        0 <= i < entries.len() ==> (#[trigger] entries[i]).total_ns == span_total(entries[i].span@)
}

/// The counts tell how many spans of the window have each id.
spec fn counted(ring: Seq<EntryModel>, held: Map<u64, usize>) -> bool {
    forall|id: u64|
        {
            &&& #[trigger] held.dom().contains(id) <==> window_count(ring, id) > 0
            &&& held.dom().contains(id) ==> held[id] == window_count(ring, id)
        }
}

/// The buckets hold the shares of the spans in the window, and nothing else.
spec fn indexed(ring: Seq<EntryModel>, buckets: Map<KeyModel, BucketState>) -> bool {
    forall|key: KeyModel|
        {
            &&& #[trigger] buckets.dom().contains(key) <==> occupied(ring, key)
            &&& buckets.dom().contains(key) ==> {
                &&& buckets[key].wf()
                &&& buckets[key].totals() == shares_in(ring, key, false)
                &&& buckets[key].selves() == shares_in(ring, key, true)
            }
        }
}

/// Every waiting span waits for a parent that is not in the window.
spec fn orphaned(ring: Seq<EntryModel>, pending: Seq<SpanModel>) -> bool {
    forall|i: int|
        0 <= i < pending.len() ==> match (#[trigger] pending[i]).parent_id {
            Some(p) => !has_id(ring, p),
            None => false,
        }
}

/// A bounded window over the most recent spans, with the statistics of every
/// bucket kept up to date.
pub struct Aggregator {
    /// The spans of the window, in the order in which they joined it.
    ring: VecDeque<Box<Entry>>,
    /// How many spans of the window have each id.
    held: SortedMap<u64, usize>,
    /// Spans that arrived before their parent, in the order of arrival.
    pending: Vec<WireSpan>,
    buckets: SortedMap<BucketKey, BucketState>,
    split_keys: SortedSet<String>,
    history_budget: usize,
}

impl View for Aggregator {
    type V = AggModel;

    closed spec fn view(&self) -> AggModel {
        AggModel {
            ring: ring_model(self.ring@),
            pending: self.pending@.map_values(|s: WireSpan| s@),
            split_keys: self.split_keys@,
            budget: self.history_budget as nat,
        }
    }
}

/// What is written down of a window.
pub struct AggregatorSnapshot {
    /// The spans of the window, in the order in which they joined it.
    pub spans_in_order: Vec<WireSpan>,
    /// Spans that wait for their parent, in the order of arrival.
    pub pending: Vec<WireSpan>,
    pub split_keys: SortedSet<String>,
    pub history_budget: usize,
}

impl View for AggregatorSnapshot {
    type V = SnapshotModel;

    open spec fn view(&self) -> SnapshotModel {
        SnapshotModel {
            spans: self.spans_in_order@.map_values(|s: WireSpan| s@),
            pending: self.pending@.map_values(|s: WireSpan| s@),
            split_keys: self.split_keys@,
            budget: self.history_budget as nat,
        }
    }
}

impl AggregatorSnapshot {
    pub open spec fn wf(&self) -> bool {
        self.split_keys.wf()
    }
}

/// Spans that arrive bring in no ids but theirs.
proof fn all_absorbed_ids(m: AggModel, spans: Seq<SpanModel>, id: u64)
    requires
        m.ring.len() == 0,
        m.pending.len() == 0,
    ensures
        has_id(all_absorbed(m, spans).ring, id) ==> names_id(spans, id),
        names_id(all_absorbed(m, spans).pending, id) ==> names_id(spans, id),
    decreases spans.len(),
{
    if spans.len() > 0 {
        let front = spans.drop_last();
        all_absorbed_ids(m, front, id);
        settled_ids(all_absorbed(m, front), seq![spans.last()], id);
        if names_id(front, id) {
            let i = choose|i: int| 0 <= i < front.len() && (#[trigger] front[i]).id == id;
            assert(spans[i].id == id);
        }
        if names_id(seq![spans.last()], id) {
            assert(spans[spans.len() - 1].id == id);
        }
    }
}

/// One more field changes what is looked up only under a new name.
proof fn lookup_push(fields: Seq<(Text, Text)>, f: (Text, Text))
    ensures
        lookup(fields.push(f)) == if lookup(fields).dom().contains(f.0) {
            lookup(fields)
        } else {
            lookup(fields).insert(f.0, f.1)
        },
{
    let more = fields.push(f);
    assert forall|name: Text, i: int| first_named(fields, name, i) implies #[trigger] first_named(
        more,
        name,
        i,
    ) by {
        assert forall|j: int| 0 <= j < i implies (#[trigger] more[j]).0 != name by {
            assert(fields[j].0 != name);
        }
    }
    assert forall|name: Text, i: int|
        i < fields.len() && first_named(more, name, i) implies #[trigger] first_named(
        fields,
        name,
        i,
    ) by {
        assert(fields[i] == more[i]);
        assert forall|j: int| 0 <= j < i implies (#[trigger] fields[j]).0 != name by {
            assert(more[j].0 != name);
        }
    }
    assert forall|name: Text, i: int, k: int|
        #[trigger] first_named(more, name, i) && #[trigger] first_named(more, name, k) implies i
        == k by {
        if i < k {
            assert(more[i].0 != name);
        }
        if k < i {
            assert(more[k].0 != name);
        }
    }
    let n = fields.len() as int;
    if lookup(fields).dom().contains(f.0) {
        let p = choose|i: int| first_named(fields, f.0, i);
        assert(first_named(more, f.0, p));
        assert(!first_named(more, f.0, n)) by {
            if first_named(more, f.0, n) {
                assert(p == n);
            }
        }
    } else {
        assert(first_named(more, f.0, n)) by {
            assert forall|j: int| 0 <= j < n implies (#[trigger] more[j]).0 != f.0 by {
                if more[j].0 == f.0 {
                    first_exists(fields, f.0, j);
                }
            }
        }
    }
    let want = if lookup(fields).dom().contains(f.0) {
        lookup(fields)
    } else {
        lookup(fields).insert(f.0, f.1)
    };
    assert forall|name: Text| lookup(more).dom().contains(name) == want.dom().contains(name) by {
        if lookup(more).dom().contains(name) {
            let i = choose|i: int| first_named(more, name, i);
            assert(first_named(more, name, i));
            if i < n {
                assert(first_named(fields, name, i));
            }
        }
        if lookup(fields).dom().contains(name) {
            let i = choose|i: int| first_named(fields, name, i);
            assert(first_named(more, name, i));
        }
    }
    assert forall|name: Text| lookup(more).dom().contains(name) implies #[trigger] lookup(more)[name]
        == want[name] by {
        let i = choose|i: int| first_named(more, name, i);
        assert(first_named(more, name, i));
        if i < n {
            assert(first_named(fields, name, i));
            let k = choose|k: int| first_named(fields, name, k);
            assert(first_named(more, name, k));
            assert(i == k);
            assert(lookup(fields).dom().contains(name));
        }
    }
    assert(lookup(more) =~= want);
}

/// A name that occurs has a first occurrence.
proof fn first_exists(fields: Seq<(Text, Text)>, name: Text, j: int)
    requires
        0 <= j < fields.len(),
        fields[j].0 == name,
    ensures
        exists|i: int| first_named(fields, name, i),
    decreases j,
{
    if exists|k: int| 0 <= k < j && (#[trigger] fields[k]).0 == name {
        let k = choose|k: int| 0 <= k < j && (#[trigger] fields[k]).0 == name;
        first_exists(fields, name, k);
    } else {
        assert(first_named(fields, name, j));
    }
}

/// The characters behind the values of a map.
spec fn texts(m: Map<Text, String>) -> Map<Text, Text> {
    m.map_values(|s: String| s@)
}

proof fn texts_insert(m: Map<Text, String>, name: Text, value: String)
    ensures
        texts(m.insert(name, value)) == texts(m).insert(name, value@),
{
    assert(texts(m.insert(name, value)) =~= texts(m).insert(name, value@));
}

/// Adds the values that `fields` gives to the split keys, where there is none
/// yet.
fn add_missing(
    found: &mut SortedMap<String, String>,
    fields: &Vec<(String, WireFieldValue)>,
    keys: &SortedSet<String>,
)
    requires
        old(found).wf(),
        keys.wf(),
    ensures
        final(found).wf(),
        texts(final(found)@) == lookup(fields_model(fields@)).restrict(keys@).union_prefer_right(
            texts(old(found)@),
        ),
{
    let ghost all = fields_model(fields@);
    let ghost start = texts(found@);
    let mut i: usize = 0;
    proof {
        assert(texts(found@) =~= lookup(all.take(0)).restrict(keys@).union_prefer_right(start));
    }
    while i < fields.len()
        invariant
            keys.wf(),
            found.wf(),
            i <= fields.len(),
            all == fields_model(fields@),
            texts(found@) == lookup(all.take(i as int)).restrict(keys@).union_prefer_right(start),
        decreases fields.len() - i,
    {
        let ghost before = found@;
        let name = &fields[i].0;
        proof {
            assert(all.take(i + 1) =~= all.take(i as int).push(all[i as int]));
            lookup_push(all.take(i as int), all[i as int]);
            let f = all[i as int];
            assert(f == (fields@[i as int].0@, fields@[i as int].1@));
            let had = lookup(all.take(i as int));
            assert(before.dom().contains(f.0) == texts(before).dom().contains(f.0));
            if had.dom().contains(f.0) {
            } else if keys@.contains(f.0) {
                let more = had.insert(f.0, f.1).restrict(keys@).union_prefer_right(start);
                if start.dom().contains(f.0) {
                    assert(more =~= texts(before));
                } else {
                    assert(more =~= texts(before).insert(f.0, f.1));
                }
            } else {
                assert(had.insert(f.0, f.1).restrict(keys@) =~= had.restrict(keys@));
            }
        }
        if keys.contains(name) && !found.contains_key(name) {
            let value = fields[i].1.to_string_value();
            proof {
                texts_insert(before, name@, value);
            }
            found.insert(name.clone(), value);
        }
        i = i + 1;
    }
    assert(all.take(i as int) =~= all);
}

/// The values that `fields` gives to the split keys, and those of
/// `inherited` for the keys to which it gives none, ascending by key.
fn collect_splits(
    fields: &Vec<(String, WireFieldValue)>,
    inherited: &Vec<(String, String)>,
    keys: &SortedSet<String>,
) -> (r: Vec<(String, String)>)
    requires
        keys.wf(),
    ensures
        r.model() == as_pairs(
            lookup(inherited.model()).union_prefer_right(
                lookup(fields_model(fields@)).restrict(keys@),
            ),
        ),
{
    let ghost own = lookup(fields_model(fields@)).restrict(keys@);
    let mut found: SortedMap<String, String> = SortedMap::new();
    let ghost empty = found@;
    add_missing(&mut found, fields, keys);
    let ghost up = inherited.model();
    let mut j: usize = 0;
    proof {
        assert(own.union_prefer_right(texts(empty)) =~= own);
        assert(texts(found@) =~= lookup(up.take(0)).union_prefer_right(own));
    }
    while j < inherited.len()
        invariant
            found.wf(),
            j <= inherited.len(),
            up == inherited.model(),
            texts(found@) == lookup(up.take(j as int)).union_prefer_right(own),
        decreases inherited.len() - j,
    {
        let ghost before = found@;
        proof {
            assert(up.take(j + 1) =~= up.take(j as int).push(up[j as int]));
            lookup_push(up.take(j as int), up[j as int]);
            let f = up[j as int];
            let had = lookup(up.take(j as int));
            assert(before.dom().contains(f.0) == texts(before).dom().contains(f.0));
            if had.dom().contains(f.0) {
            } else if own.dom().contains(f.0) {
                assert(had.insert(f.0, f.1).union_prefer_right(own) =~= had.union_prefer_right(
                    own,
                ));
            } else {
                assert(had.insert(f.0, f.1).union_prefer_right(own) =~= had.union_prefer_right(
                    own,
                ).insert(f.0, f.1));
            }
        }
        if !found.contains_key(&inherited[j].0) {
            let value = inherited[j].1.clone();
            proof {
                texts_insert(before, inherited[j as int].0@, value);
            }
            found.insert(inherited[j].0.clone(), value);
        }
        j = j + 1;
    }
    assert(up.take(j as int) =~= up);
    pairs_of(&found)
}

/// The pairs of a map, ascending by key.
fn pairs_of(map: &SortedMap<String, String>) -> (r: Vec<(String, String)>)
    requires
        map.wf(),
    ensures
        r.model() == as_pairs(texts(map@)),
{
    let mut out: Vec<(String, String)> = Vec::new();
    let mut i: usize = 0;
    while i < map.len()
        invariant
            map.wf(),
            i <= map.listed().len(),
            out@.len() == i,
            forall|j: int|
                0 <= j < i ==> (#[trigger] out@[j]).0@ == map.listed()[j] && out@[j].1@
                    == map@[map.listed()[j]]@,
        decreases map.listed().len() - i,
    {
        out.push((map.key_at(i).clone(), map.value_at(i).clone()));
        i = i + 1;
    }
    proof {
        map.listed_is_listing();
        assert(texts(map@).dom() =~= map@.dom());
        assert forall|j: int| 0 <= j < map.listed().len() implies map@.dom().contains(
            #[trigger] map.listed()[j],
        ) by {
            assert(map.listed().to_set().contains(map.listed()[j]));
        }
        assert(out.model() =~= as_pairs(texts(map@)));
    }
    out
}

/// The models of some spans.
spec fn spans_model(v: Seq<WireSpan>) -> Seq<SpanModel> {
    v.map_values(|s: WireSpan| s@)
}

/// The pairs whose name is among some keys.
fn keep_keys(pairs: &Vec<(String, String)>, keys: &SortedSet<String>) -> (r: Vec<(String, String)>)
    requires
        keys.wf(),
    ensures
        lookup(r.model()) == lookup(pairs.model()).restrict(keys@),
{
    let ghost all = pairs.model();
    let mut out: Vec<(String, String)> = Vec::new();
    let mut i: usize = 0;
    proof {
        assert(lookup(out.model()) =~= lookup(all.take(0)).restrict(keys@));
    }
    while i < pairs.len()
        invariant
            keys.wf(),
            i <= pairs.len(),
            all == pairs.model(),
            lookup(out.model()) == lookup(all.take(i as int)).restrict(keys@),
        decreases pairs.len() - i,
    {
        let ghost kept = out.model();
        let ghost f = all[i as int];
        let ghost had = lookup(all.take(i as int));
        proof {
            assert(all.take(i + 1) =~= all.take(i as int).push(f));
            lookup_push(all.take(i as int), f);
            lookup_push(kept, f);
            assert(f == (pairs@[i as int].0@, pairs@[i as int].1@));
        }
        if keys.contains(&pairs[i].0) {
            out.push((pairs[i].0.clone(), pairs[i].1.clone()));
            proof {
                assert(out.model() =~= kept.push(f));
                assert(had.insert(f.0, f.1).restrict(keys@) =~= had.restrict(keys@).insert(
                    f.0,
                    f.1,
                ));
            }
        } else {
            assert(had.insert(f.0, f.1).restrict(keys@) =~= had.restrict(keys@));
        }
        i = i + 1;
    }
    assert(all.take(i as int) =~= all);
    out
}

/// Takes the spans that wait for `id` out of a list.
fn extract_waiting(v: &mut Vec<WireSpan>, id: u64) -> (w: Vec<WireSpan>)
    ensures
        spans_model(w@) == waiting_for(spans_model(old(v)@), id),
        spans_model(final(v)@) == not_waiting_for(spans_model(old(v)@), id),
{
    let ghost all = spans_model(v@);
    let ghost whole = v@;
    let mut w: Vec<WireSpan> = Vec::new();
    let mut i: usize = 0;
    let ghost mut p: int = 0;
    proof {
        reveal(Seq::filter);
        assert(spans_model(w@) =~= waiting_for(all.take(0), id));
        assert(spans_model(v@.take(0)) =~= not_waiting_for(all.take(0), id));
        assert(v@.skip(0) =~= whole.skip(0));
    }
    while i < v.len()
        invariant
            all == spans_model(whole),
            0 <= p <= whole.len(),
            i <= v@.len(),
            spans_model(w@) == waiting_for(all.take(p), id),
            spans_model(v@.take(i as int)) == not_waiting_for(all.take(p), id),
            v@.skip(i as int) == whole.skip(p),
        decreases v@.len() - i,
    {
        let ghost before = v@;
        proof {
            reveal(Seq::filter);
            assert(before.skip(i as int).len() == whole.skip(p).len());
            assert(before[i as int] == before.skip(i as int)[0]);
            assert(whole[p] == whole.skip(p)[0]);
            assert(all.take(p + 1).drop_last() =~= all.take(p));
            assert(all.take(p + 1).last() == whole[p]@);
            assert(whole.skip(p).skip(1) =~= whole.skip(p + 1));
            assert(before.skip(i as int).skip(1) =~= before.skip(i + 1));
        }
        let waits: bool = match v[i].parent_id {
            Some(parent) => parent == id,
            None => false,
        };
        if waits {
            let s = v.remove(i);
            let ghost had = w@;
            w.push(s);
            proof {
                assert(v@.take(i as int) =~= before.take(i as int));
                assert(v@.skip(i as int) =~= before.skip(i + 1));
                assert(spans_model(w@) =~= spans_model(had).push(s@));
            }
        } else {
            i = i + 1;
            proof {
                assert(spans_model(v@.take(i as int)) =~= spans_model(before.take(i - 1)).push(
                    before[i - 1]@,
                ));
            }
        }
        proof {
            p = p + 1;
        }
    }
    proof {
        assert(v@.skip(i as int).len() == 0);
        assert(whole.skip(p).len() == 0);
        assert(all.take(p) =~= all);
        assert(v@.take(i as int) =~= v@);
    }
    w
}

/// Puts the spans that waited in front of those still to be taken in, where
/// the next to take in is the last of the list.
fn queue_up(todo: &mut Vec<WireSpan>, waiters: Vec<WireSpan>)
    ensures
        spans_model(final(todo)@).reverse() == spans_model(waiters@) + spans_model(
            old(todo)@,
        ).reverse(),
        final(todo)@.len() == old(todo)@.len() + waiters@.len(),
{
    let ghost base = todo@;
    let ghost whole = waiters@;
    let mut left = waiters;
    proof {
        assert(left@ =~= whole.take(left@.len() as int));
        assert(todo@ =~= base + whole.skip(left@.len() as int).reverse());
    }
    while left.len() > 0
        invariant
            left@.len() <= whole.len(),
            left@ == whole.take(left@.len() as int),
            todo@ == base + whole.skip(left@.len() as int).reverse(),
        decreases left@.len(),
    {
        let ghost n = left@.len() as int;
        if let Some(s) = left.pop() {
            todo.push(s);
            proof {
                assert(s == whole[n - 1]);
                assert(left@ =~= whole.take(n - 1));
                assert(whole.skip(n - 1).reverse() =~= whole.skip(n).reverse().push(s));
            }
        }
    }
    proof {
        assert(whole.skip(0) =~= whole);
        assert(spans_model(todo@).reverse() =~= spans_model(whole) + spans_model(base).reverse());
    }
}

/// What taking in the first of some spans does, where it joins the window.
proof fn settled_admits(m: AggModel, queue: Seq<SpanModel>, bucket: KeyModel)
    requires
        queue.len() > 0,
        bucket_for(m, queue[0]) == Some(bucket),
    ensures
        ({
            let (after, more) = settled(
                admitted(m, queue[0], bucket),
                waiting_for(m.pending, queue[0].id) + queue.skip(1),
            );
            settled(m, queue) == (after, seq![queue[0].id] + more)
        }),
{
}

/// What taking in the first of some spans does, where it has to wait.
proof fn settled_parks(m: AggModel, queue: Seq<SpanModel>)
    requires
        queue.len() > 0,
        bucket_for(m, queue[0]) is None,
    ensures
        settled(m, queue) == settled(parked(m, queue[0]), queue.skip(1)),
{
}

/// The members of a filtered list are members of the list that satisfy the
/// filter.
proof fn filtered_members(s: Seq<SpanModel>, p: spec_fn(SpanModel) -> bool, i: int) -> (j: int)
    requires
        0 <= i < s.filter(p).len(),
    ensures
        0 <= j < s.len(),
        s[j] == s.filter(p)[i],
        p(s[j]),
{
    s.lemma_filter_pred(p, i);
    let x = s.filter(p)[i];
    assert(s.filter(p).contains(x));
    s.lemma_filter_contains_rev(p, x);
    choose|j: int| 0 <= j < s.len() && s[j] == x
}

impl Aggregator {
    pub closed spec fn wf(&self) -> bool {
        &&& timed(self.ring@)
        &&& self.held.wf()
        &&& counted(self@.ring, self.held@)
        &&& self.buckets.wf()
        &&& self.split_keys.wf()
        &&& indexed(self@.ring, self.buckets@)
        &&& self.ring@.len() <= self.history_budget
        &&& self.pending@.len() <= pending_cap(self.history_budget as nat)
        &&& orphaned(self@.ring, self@.pending)
    }

    /// Everything but the pending spans is in order.
    closed spec fn ring_wf(&self) -> bool {
        &&& timed(self.ring@)
        &&& self.held.wf()
        &&& counted(self@.ring, self.held@)
        &&& self.buckets.wf()
        &&& self.split_keys.wf()
        &&& indexed(self@.ring, self.buckets@)
        &&& self.ring@.len() <= self.history_budget
    }

    /// Where the newest span with the given id stands.
    fn find(&self, id: u64) -> (r: Option<usize>)
        requires
            self.ring_wf(),
        ensures
            match r {
                Some(i) => i < self.ring@.len() && is_newest(self@.ring, id, i as int),
                None => !has_id(self@.ring, id),
            },
    {
        proof {
            count_finds(self@.ring, id);
        }
        if !self.held.contains_key(&id) {
            return None;
        }
        let mut left: usize = self.ring.len();
        while left > 0
            invariant
                left <= self.ring@.len(),
                forall|j: int| left <= j < self.ring@.len() ==> (#[trigger] self@.ring[j]).span.id != id,
            decreases left,
        {
            let i: usize = left - 1;
            assert(self@.ring[i as int].span.id == self.ring@[i as int].span.id);
            if self.ring[i].span.id == id {
                return Some(i);
            }
            left = i;
        }
        None
    }

    /// The newest span with the given id.
    fn entry_of(&self, id: u64) -> (r: Option<&Entry>)
        requires
            self.ring_wf(),
        ensures
            match r {
                Some(entry) => has_id(self@.ring, id) && entry@ == self@.ring[index_of_id(
                    self@.ring,
                    id,
                )],
                None => !has_id(self@.ring, id),
            },
    {
        match self.find(id) {
            Some(i) => {
                proof {
                    newest_is_only(self@.ring, id, i as int);
                }
                Some(&self.ring[i])
            },
            None => None,
        }
    }

    /// Writes what the children of a span took, and its new self time into
    /// its bucket.
    fn set_child_sum(&mut self, i: usize, sum: u64)
        requires
            old(self).ring_wf(),
            i < old(self).ring@.len(),
        ensures
            final(self).ring_wf(),
            final(self)@.ring == old(self)@.ring.update(
                i as int,
                EntryModel { child_sum: sum, ..old(self)@.ring[i as int] },
            ),
            final(self).pending == old(self).pending,
            final(self).split_keys == old(self).split_keys,
            final(self).history_budget == old(self).history_budget,
    {
        let ghost ring = self@.ring;
        let ghost entries = self.ring@;
        let ghost buckets = self.buckets@;
        let mut entry = match self.ring.remove(i) {
            Some(entry) => entry,
            None => {
                assert(false);
                return ;
            },
        };
        let key = entry.bucket.duplicate();
        let total: u64 = entry.total_ns;
        let old_self: u64 = entry.total_ns.saturating_sub(entry.child_sum);
        let new_self: u64 = entry.total_ns.saturating_sub(sum);
        entry.child_sum = sum;
        let ghost changed = entry;
        self.ring.insert(i, entry);
        let ghost e = EntryModel { child_sum: sum, ..ring[i as int] };
        let ghost after = ring.update(i as int, e);
        proof {
            assert(self.ring@ =~= entries.update(i as int, changed));
            assert(timed(self.ring@));
            assert(self@.ring =~= after);
            assert(counted(after, self.held@)) by {
                assert forall|id: u64| {
                    &&& #[trigger] self.held@.dom().contains(id) <==> window_count(after, id) > 0
                    &&& self.held@.dom().contains(id) ==> self.held@[id] == window_count(after, id)
                } by {
                    same_spans_count(after, ring, id);
                }
            }
            assert(key.model() == ring[i as int].bucket);
            assert(total == ring[i as int].total_ns());
            assert(old_self == ring[i as int].self_ns());
            assert(new_self == e.self_ns());
            assert(occupied(ring, key.model()));
            shares_after_update(ring, i as int, e, key.model(), false);
            shares_after_update(ring, i as int, e, key.model(), true);
            shares_count(ring, key.model());
        }
        match self.buckets.get_mut(&key) {
            Some(state) => {
                state.remove(total, old_self);
                state.add(total, new_self);
            },
            None => {},
        }
        proof {
            assert forall|k: KeyModel| {
                &&& #[trigger] self.buckets@.dom().contains(k) <==> occupied(after, k)
                &&& self.buckets@.dom().contains(k) ==> {
                    &&& self.buckets@[k].wf()
                    &&& self.buckets@[k].totals() == shares_in(after, k, false)
                    &&& self.buckets@[k].selves() == shares_in(after, k, true)
                }
            } by {
                assert(buckets.dom().contains(k) <==> occupied(ring, k));
                shares_after_update(ring, i as int, e, k, false);
                shares_after_update(ring, i as int, e, k, true);
                if occupied(ring, k) {
                    let p = choose|p: int| 0 <= p < ring.len() && (#[trigger] ring[p]).bucket == k;
                    assert(after[p].bucket == k);
                }
                if occupied(after, k) {
                    let p = choose|p: int|
                        0 <= p < after.len() && (#[trigger] after[p]).bucket == k;
                    assert(ring[p].bucket == k);
                }
            }
        }
    }

    /// A child joins: its time counts against its parent's self time.
    fn credit(&mut self, parent: Option<u64>, total: u64)
        requires
            old(self).ring_wf(),
        ensures
            final(self).ring_wf(),
            final(self)@.ring == credited(old(self)@.ring, parent, total),
            final(self).pending == old(self).pending,
            final(self).split_keys == old(self).split_keys,
            final(self).history_budget == old(self).history_budget,
    {
        if let Some(p) = parent {
            if let Some(i) = self.find(p) {
                let sum: u64 = self.ring[i].child_sum.saturating_add(total);
                proof {
                    newest_is_only(self@.ring, p, i as int);
                }
                self.set_child_sum(i, sum);
            }
        }
    }

    /// A child leaves: its parent's self time gets its time back.
    fn debit(&mut self, parent: Option<u64>, total: u64)
        requires
            old(self).ring_wf(),
        ensures
            final(self).ring_wf(),
            final(self)@.ring == debited(old(self)@.ring, parent, total),
            final(self).pending == old(self).pending,
            final(self).split_keys == old(self).split_keys,
            final(self).history_budget == old(self).history_budget,
    {
        if let Some(p) = parent {
            if let Some(i) = self.find(p) {
                let sum: u64 = self.ring[i].child_sum.saturating_sub(total);
                proof {
                    newest_is_only(self@.ring, p, i as int);
                }
                self.set_child_sum(i, sum);
            }
        }
    }

    /// The oldest span leaves the window.
    fn evict_oldest(&mut self)
        requires
            old(self).ring_wf(),
            old(self).ring@.len() > 0,
        ensures
            final(self).ring_wf(),
            final(self)@.ring == without_oldest(old(self)@.ring),
            final(self).pending == old(self).pending,
            final(self).split_keys == old(self).split_keys,
            final(self).history_budget == old(self).history_budget,
    {
        let ghost ring = self@.ring;
        let ghost entries = self.ring@;
        let ghost buckets = self.buckets@;
        let ghost gone = ring[0];
        let entry = match self.ring.pop_front() {
            Some(entry) => entry,
            None => {
                assert(false);
                return ;
            },
        };
        let ghost after = ring.remove(0);
        proof {
            assert(self.ring@ =~= entries.remove(0));
            assert(timed(self.ring@));
            assert(self@.ring =~= after);
        }
        let ghost held = self.held@;
        proof {
            count_remove(ring, 0, entry.span.id);
        }
        match self.held.remove(&entry.span.id) {
            Some(n) => if n > 1 {
                self.held.insert(entry.span.id, n - 1);
            },
            None => {},
        }
        proof {
            assert(counted(after, self.held@)) by {
                assert forall|id: u64| {
                    &&& #[trigger] self.held@.dom().contains(id) <==> window_count(after, id) > 0
                    &&& self.held@.dom().contains(id) ==> self.held@[id] == window_count(after, id)
                } by {
                    count_remove(ring, 0, id);
                    assert(held.dom().contains(id) <==> window_count(ring, id) > 0);
                }
            }
            assert(gone == entry@);
            assert(occupied(ring, gone.bucket));
            shares_after_remove(ring, 0, gone.bucket, false);
            shares_after_remove(ring, 0, gone.bucket, true);
        }
        let self_ns: u64 = entry.total_ns.saturating_sub(entry.child_sum);
        let mut now_empty: bool = false;
        match self.buckets.get_mut(&entry.bucket) {
            Some(state) => {
                state.remove(entry.total_ns, self_ns);
                now_empty = state.is_empty();
            },
            None => {
                assert(buckets.dom().contains(gone.bucket));
                assert(false);
            },
        }
        if now_empty {
            let _ = self.buckets.remove(&entry.bucket);
        }
        proof {
            let base_f = shares_in(after, gone.bucket, false);
            let base_t = shares_in(after, gone.bucket, true);
            assert(base_f.insert(gone.share(false)).remove(gone.share(false)) =~= base_f);
            assert(base_t.insert(gone.share(true)).remove(gone.share(true)) =~= base_t);
            assert forall|k: KeyModel| {
                &&& #[trigger] self.buckets@.dom().contains(k) <==> occupied(after, k)
                &&& self.buckets@.dom().contains(k) ==> {
                    &&& self.buckets@[k].wf()
                    &&& self.buckets@[k].totals() == shares_in(after, k, false)
                    &&& self.buckets@[k].selves() == shares_in(after, k, true)
                }
            } by {
                assert(buckets.dom().contains(k) <==> occupied(ring, k));
                shares_after_remove(ring, 0, k, false);
                shares_after_remove(ring, 0, k, true);
                shares_count(after, k);
                shares_count(ring, k);
            }
        }
        self.debit(entry.span.parent_id, entry.total_ns);
    }

    /// Puts a span into the window, under its bucket.
    fn join(&mut self, span: WireSpan, bucket: BucketKey)
        requires
            old(self).ring_wf(),
            old(self).history_budget > 0,
        ensures
            final(self).ring_wf(),
            final(self)@.ring == joined(
                old(self)@.ring,
                span@,
                bucket.model(),
                old(self).history_budget as nat,
            ),
            final(self).pending == old(self).pending,
            final(self).split_keys == old(self).split_keys,
            final(self).history_budget == old(self).history_budget,
    {
        let parent: Option<u64> = span.parent_id;
        let total: u64 = match span.closed_at_ns {
            Some(closed) => closed.saturating_sub(span.opened_at_ns),
            None => 0,
        };
        let ghost ring = self@.ring;
        let ghost budget = self.history_budget as nat;
        proof {
            with_room_keeps(ring, budget);
        }
        if self.ring.len() > 0 && self.ring.len() >= self.history_budget {
            self.evict_oldest();
        }
        assert(self@.ring == with_room(ring, budget));
        let child_sum: u64 = match self.entry_of(span.id) {
            Some(entry) => entry.child_sum,
            None => 0,
        };
        proof {
            credited_each(self@.ring, parent, total);
        }
        self.credit(parent, total);
        self.append(span, bucket, child_sum);
    }

    /// Puts a span behind those of the window, under its bucket.
    fn append(&mut self, span: WireSpan, bucket: BucketKey, child_sum: u64)
        requires
            old(self).ring_wf(),
            old(self)@.ring.len() < old(self).history_budget,
        ensures
            final(self).ring_wf(),
            final(self)@.ring == old(self)@.ring.push(
                EntryModel { span: span@, bucket: bucket.model(), child_sum },
            ),
            final(self).pending == old(self).pending,
            final(self).split_keys == old(self).split_keys,
            final(self).history_budget == old(self).history_budget,
    {
        let total: u64 = match span.closed_at_ns {
            Some(closed) => closed.saturating_sub(span.opened_at_ns),
            None => 0,
        };
        let own: u64 = total.saturating_sub(child_sum);
        let ghost ring = self@.ring;
        let ghost buckets = self.buckets@;
        let ghost e = EntryModel { span: span@, bucket: bucket.model(), child_sum };
        let ghost after = ring.push(e);
        proof {
            shares_count(ring, bucket.model());
            shares_after_push(ring, e, bucket.model(), false);
            shares_after_push(ring, e, bucket.model(), true);
        }
        let key = bucket.duplicate();
        match self.buckets.remove(&key) {
            Some(mut state) => {
                state.add(total, own);
                self.buckets.insert(key, state);
            },
            None => {
                let mut state = BucketState::new();
                proof {
                    assert(!occupied(ring, bucket.model()));
                    assert(shares_in(ring, bucket.model(), false).len() == 0);
                    assert(shares_in(ring, bucket.model(), true).len() == 0);
                    assert(shares_in(ring, bucket.model(), false)
                        =~= vstd::multiset::Multiset::empty());
                    assert(shares_in(ring, bucket.model(), true)
                        =~= vstd::multiset::Multiset::empty());
                }
                state.add(total, own);
                self.buckets.insert(key, state);
            },
        }
        let ghost held = self.held@;
        let id: u64 = span.id;
        proof {
            count_is_small(ring, id);
            count_push(ring, e, id);
        }
        let n: usize = match self.held.remove(&id) {
            Some(n) => n,
            None => 0,
        };
        self.held.insert(id, n + 1);
        proof {
            assert(counted(after, self.held@)) by {
                assert forall|x: u64| {
                    &&& #[trigger] self.held@.dom().contains(x) <==> window_count(after, x) > 0
                    &&& self.held@.dom().contains(x) ==> self.held@[x] == window_count(after, x)
                } by {
                    count_push(ring, e, x);
                    assert(held.dom().contains(x) <==> window_count(ring, x) > 0);
                }
            }
        }
        self.ring.push_back(Box::new(Entry { span, bucket, total_ns: total, child_sum }));
        proof {
            assert(self@.ring =~= after);
            assert forall|k: KeyModel| {
                &&& #[trigger] self.buckets@.dom().contains(k) <==> occupied(after, k)
                &&& self.buckets@.dom().contains(k) ==> {
                    &&& self.buckets@[k].wf()
                    &&& self.buckets@[k].totals() == shares_in(after, k, false)
                    &&& self.buckets@[k].selves() == shares_in(after, k, true)
                }
            } by {
                assert(buckets.dom().contains(k) <==> occupied(ring, k));
                shares_after_push(ring, e, k, false);
                shares_after_push(ring, e, k, true);
                shares_count(after, k);
                shares_count(ring, k);
            }
        }
    }

    /// The bucket of an arriving span, if it can be told yet.
    fn resolve(&self, span: &WireSpan) -> (r: Option<BucketKey>)
        requires
            self.ring_wf(),
        ensures
            match r {
                Some(b) => bucket_for(self@, span@) == Some(b.model()),
                None => bucket_for(self@, span@) is None,
            },
    {
        match span.parent_id {
            None => {
                let none: Vec<(String, String)> = Vec::new();
                let splits = collect_splits(&span.fields, &none, &self.split_keys);
                let mut stack: Vec<String> = Vec::new();
                stack.push(span.name.clone());
                let b = BucketKey { stack, splits };
                proof {
                    assert(none.model() =~= Seq::empty());
                    assert(lookup(none.model()).union_prefer_right(
                        own_splits(span@, self.split_keys@),
                    ) =~= own_splits(span@, self.split_keys@));
                    assert(b.stack.model() =~= seq![span@.name]);
                    assert(b.model() == root_bucket(span@, self.split_keys@));
                }
                Some(b)
            },
            Some(p) => match self.entry_of(p) {
                None => None,
                Some(parent) => {
                    let splits = collect_splits(
                        &span.fields,
                        &parent.bucket.splits,
                        &self.split_keys,
                    );
                    let mut stack = parent.bucket.stack.duplicate();
                    let ghost up = stack.model();
                    stack.push(span.name.clone());
                    let b = BucketKey { stack, splits };
                    proof {
                        assert(b.stack.model() =~= up.push(span@.name));
                        assert(b.model() == child_bucket(
                            parent@.bucket,
                            span@,
                            self.split_keys@,
                        ));
                    }
                    Some(b)
                },
            },
        }
    }

    /// A span begins to wait for its parent.
    fn park_pending(&mut self, missing_parent: u64, span: WireSpan)
        requires
            old(self).wf(),
            span.parent_id == Some(missing_parent),
            !has_id(old(self)@.ring, missing_parent),
        ensures
            final(self).wf(),
            final(self)@ == parked(old(self)@, span@),
    {
        let ghost before = self@;
        let ghost all = before.pending.push(span@);
        self.pending.push(span);
        let quarter: usize = self.history_budget / 4;
        let cap: usize = if quarter >= 1 { quarter } else { 1 };
        proof {
            assert(self@.pending =~= all);
        }
        if self.pending.len() > cap {
            let mut low: u64 = missing_parent;
            let mut i: usize = 0;
            let ghost mut at: int = all.len() - 1;
            while i < self.pending.len()
                invariant
                    i <= self.pending@.len(),
                    self@.pending == all,
                    orphaned(before.ring, before.pending),
                    all == before.pending.push(span@),
                    span@.parent_id == Some(missing_parent),
                    0 <= at < all.len(),
                    all[at].parent_id == Some(low),
                    forall|j: int|
                        0 <= j < i ==> match (#[trigger] all[j]).parent_id {
                            Some(p) => low <= p,
                            None => true,
                        },
                decreases self.pending@.len() - i,
            {
                assert(all[i as int] == self.pending@[i as int]@);
                if let Some(p) = self.pending[i].parent_id {
                    if p < low {
                        low = p;
                        proof {
                            at = i as int;
                        }
                    }
                }
                i = i + 1;
            }
            proof {
                assert(is_lowest_parent(all, low));
                let l = lowest_parent(all);
                assert(is_lowest_parent(all, l));
                assert(all[at].parent_id == Some(low));
                let q = choose|q: int|
                    0 <= q < all.len() && (#[trigger] all[q]).parent_id == Some(l);
                assert(l == low);
            }
            let _ = extract_waiting(&mut self.pending, low);
            proof {
                let f = |s: SpanModel| s.parent_id != Some(low);
                let kept = not_waiting_for(all, low);
                assert(self@.pending =~= kept);
                crate::aggregate::ring::waiting_is_partition(all, low);
                let w = waiting_for(all, low);
                assert(w.contains(all[at])) by {
                    all.lemma_filter_contains(|s: SpanModel| s.parent_id == Some(low), at);
                }
                assert(w.len() >= 1);
                assert forall|i: int| 0 <= i < kept.len() implies match (
                #[trigger] kept[i]).parent_id {
                    Some(p) => !has_id(self@.ring, p),
                    None => false,
                } by {
                    let j = filtered_members(all, f, i);
                    assert(kept[i] == all[j]);
                    if j < before.pending.len() {
                        assert(before.pending[j] == all[j]);
                    }
                }
            }
        } else {
            proof {
                assert forall|i: int| 0 <= i < all.len() implies match (
                #[trigger] all[i]).parent_id {
                    Some(p) => !has_id(self@.ring, p),
                    None => false,
                } by {
                    if i < before.pending.len() {
                        assert(before.pending[i] == all[i]);
                    }
                }
            }
        }
    }

    /// A span joins the window; the spans that waited for it are handed out.
    fn let_in(&mut self, span: WireSpan, bucket: BucketKey) -> (w: Vec<WireSpan>)
        requires
            old(self).wf(),
            old(self)@.budget > 0,
        ensures
            final(self).wf(),
            final(self)@ == admitted(old(self)@, span@, bucket.model()),
            spans_model(w@) == waiting_for(old(self)@.pending, span@.id),
    {
        let ghost before = self@;
        let ghost span_model = span@;
        let ghost key = bucket.model();
        let ghost id = span.id;
        proof {
            assert(before.pending == spans_model(self.pending@));
        }
        let w = extract_waiting(&mut self.pending, span.id);
        self.join(span, bucket);
        proof {
            let f = |s: SpanModel| s.parent_id != Some(id);
            let kept = not_waiting_for(before.pending, id);
            assert(self@.pending =~= kept);
            crate::aggregate::ring::waiting_is_partition(before.pending, id);
            assert forall|i: int| 0 <= i < kept.len() implies match (
            #[trigger] kept[i]).parent_id {
                Some(p) => !has_id(self@.ring, p),
                None => false,
            } by {
                let j = filtered_members(before.pending, f, i);
                assert(kept[i] == before.pending[j]);
                let p = kept[i].parent_id->0;
                if has_id(self@.ring, p) {
                    joined_ids(before.ring, span_model, key, before.budget, p);
                }
            }
        }
        w
    }

    /// Takes a closed span in, and after it the spans that waited for it.
    #[verifier::rlimit(40)]
    fn absorb_resolved(&mut self, span: WireSpan) -> (ids: Vec<u64>)
        requires
            old(self).wf(),
            old(self)@.budget > 0,
        ensures
            final(self).wf(),
            (final(self)@, ids@) == settled(old(self)@, seq![span@]),
    {
        let ghost start = self@;
        let ghost goal = settled(start, seq![span@]);
        let mut ids: Vec<u64> = Vec::new();
        // The next span to take in is the last of the list.
        let mut todo: Vec<WireSpan> = Vec::new();
        todo.push(span);
        proof {
            assert(spans_model(todo@).reverse() =~= seq![span@]);
            let (after, more) = settled(self@, spans_model(todo@).reverse());
            assert(ids@ + more =~= more);
        }
        while todo.len() > 0
            invariant
                self.wf(),
                self@.budget == start.budget,
                start.budget > 0,
                goal.0 == settled(self@, spans_model(todo@).reverse()).0,
                goal.1 == ids@ + settled(self@, spans_model(todo@).reverse()).1,
            decreases self@.pending.len() + todo@.len(), todo@.len(),
        {
            let ghost before = self@;
            let ghost queue = spans_model(todo@).reverse();
            let ghost had = ids@;
            let next = match todo.pop() {
                Some(next) => next,
                None => {
                    assert(false);
                    return ids;
                },
            };
            let ghost model = next@;
            let ghost rest = queue.skip(1);
            proof {
                assert(queue[0] == model);
                assert(spans_model(todo@).reverse() =~= rest);
            }
            match self.resolve(&next) {
                None => {
                    let parent: u64 = match next.parent_id {
                        Some(p) => p,
                        None => 0,
                    };
                    proof {
                        crate::aggregate::ring::parked_adds_at_most_one(before, model);
                        settled_parks(before, queue);
                    }
                    self.park_pending(parent, next);
                },
                Some(bucket) => {
                    let id: u64 = next.id;
                    let ghost key = bucket.model();
                    let waiters = self.let_in(next, bucket);
                    ids.push(id);
                    let ghost w = spans_model(waiters@);
                    queue_up(&mut todo, waiters);
                    proof {
                        crate::aggregate::ring::waiting_is_partition(before.pending, id);
                        settled_admits(before, queue, key);
                        let (after, more) = settled(
                            admitted(before, model, key),
                            w + rest,
                        );
                        assert(had + (seq![id] + more) =~= ids@ + more);
                    }
                },
            }
        }
        proof {
            assert(spans_model(todo@).reverse() =~= Seq::empty());
            assert(ids@ + Seq::<u64>::empty() =~= ids@);
        }
        ids
    }

    pub fn new(history_budget: usize) -> (a: Self)
        ensures
            a.wf(),
            a@ == (AggModel {
                ring: Seq::empty(),
                pending: Seq::empty(),
                split_keys: Set::empty(),
                budget: history_budget as nat,
            }),
    {
        let a = Aggregator {
            ring: VecDeque::new(),
            held: SortedMap::new(),
            pending: Vec::new(),
            buckets: SortedMap::new(),
            split_keys: SortedSet::new(),
            history_budget,
        };
        proof {
            assert(a@.ring =~= Seq::empty());
            assert(a@.pending =~= Seq::empty());
            assert(indexed(a@.ring, a.buckets@));
        }
        a
    }

    /// Writes down what the window holds.
    pub fn snapshot(&self) -> (r: AggregatorSnapshot)
        requires
            self.wf(),
        ensures
            r.wf(),
            r@ == snapshot_of(self@),
            parents_missing(r@),
    {
        let mut spans_in_order: Vec<WireSpan> = Vec::new();
        let mut i: usize = 0;
        while i < self.ring.len()
            invariant
                self.wf(),
                i <= self.ring@.len(),
                spans_in_order@.len() == i,
                forall|j: int|
                    0 <= j < i ==> (#[trigger] spans_in_order@[j])@ == self@.ring[j].span,
            decreases self.ring@.len() - i,
        {
            assert(self@.ring[i as int] == self.ring@[i as int]@);
            spans_in_order.push(self.ring[i].span.duplicate());
            i = i + 1;
        }
        let mut pending: Vec<WireSpan> = Vec::new();
        let mut j: usize = 0;
        while j < self.pending.len()
            invariant
                j <= self.pending@.len(),
                pending@.len() == j,
                forall|k: int| 0 <= k < j ==> (#[trigger] pending@[k])@ == self.pending@[k]@,
            decreases self.pending@.len() - j,
        {
            pending.push(self.pending[j].duplicate());
            j = j + 1;
        }
        let r = AggregatorSnapshot {
            spans_in_order,
            pending,
            split_keys: self.split_keys.duplicate(),
            history_budget: self.history_budget,
        };
        proof {
            assert(r@.spans =~= snapshot_of(self@).spans);
            assert(r@.pending =~= self@.pending);
            assert forall|i: int| 0 <= i < r@.pending.len() implies match (
            #[trigger] r@.pending[i]).parent_id {
                Some(p) => !names_id(r@.spans, p),
                None => false,
            } by {
                if let Some(p) = self@.pending[i].parent_id {
                    if names_id(r@.spans, p) {
                        let k = choose|k: int|
                            0 <= k < r@.spans.len() && (#[trigger] r@.spans[k]).id == p;
                        assert(self@.ring[k].span.id == p);
                    }
                }
            }
        }
        r
    }

    /// Makes a window from what was written down. The statistics are counted
    /// anew.
    pub fn restore(snapshot: AggregatorSnapshot) -> (a: Self)
        requires
            snapshot.wf(),
            snapshot@.budget > 0,
            parents_missing(snapshot@),
        ensures
            a.wf(),
            a@ == restored(snapshot@),
    {
        let ghost s = snapshot@;
        let mut a = Aggregator::new(snapshot.history_budget);
        a.split_keys = snapshot.split_keys;
        let ghost empty = empty_window(s.split_keys, s.budget);
        assert(a@ == empty);
        assert(a@.ring =~= Seq::empty());
        let spans = snapshot.spans_in_order;
        let ghost given = spans@;
        let mut i: usize = 0;
        proof {
            assert(s.spans.take(0) =~= Seq::empty());
            assert(s.spans =~= spans_model(given));
            assert(s.pending =~= spans_model(snapshot.pending@));
        }
        while i < spans.len()
            invariant
                a.wf(),
                s.spans == spans_model(given),
                spans@ == given,
                i <= given.len(),
                a@ == all_absorbed(empty, s.spans.take(i as int)),
                a@.budget == s.budget,
                s.budget > 0,
            decreases given.len() - i,
        {
            proof {
                assert(s.spans.take(i + 1).drop_last() =~= s.spans.take(i as int));
                assert(s.spans.take(i + 1).last() == given[i as int]@);
                settled_keeps_settings(a@, seq![given[i as int]@]);
            }
            let _ = a.absorb(spans[i].duplicate());
            i = i + 1;
        }
        proof {
            assert(s.spans.take(i as int) =~= s.spans);
            assert(s.pending.take(0) =~= Seq::empty());
            assert forall|id: u64| #[trigger] has_id(a@.ring, id) implies names_id(s.spans, id) by {
                all_absorbed_ids(empty, s.spans, id);
            }
        }
        let ghost full = a@;
        let mut j: usize = 0;
        while j < snapshot.pending.len()
            invariant
                a.wf(),
                s.pending == spans_model(snapshot.pending@),
                parents_missing(s),
                j <= snapshot.pending@.len(),
                a@ == all_parked(full, s.pending.take(j as int)),
                a@.ring == full.ring,
                forall|id: u64| #[trigger] has_id(full.ring, id) ==> names_id(s.spans, id),
            decreases snapshot.pending@.len() - j,
        {
            proof {
                assert(s.pending.take(j + 1).drop_last() =~= s.pending.take(j as int));
                assert(s.pending.take(j + 1).last() == snapshot.pending@[j as int]@);
                assert(s.pending[j as int].parent_id is Some);
            }
            if let Some(p) = snapshot.pending[j].parent_id {
                a.park_pending(p, snapshot.pending[j].duplicate());
            }
            j = j + 1;
        }
        assert(s.pending.take(j as int) =~= s.pending);
        a
    }

    /// How many spans are in the window.
    pub fn len(&self) -> (n: usize)
        ensures
            n == self@.ring.len(),
    {
        self.ring.len()
    }

    /// How many spans wait for their parent.
    pub fn pending_len(&self) -> (n: usize)
        ensures
            n == self@.pending.len(),
    {
        self.pending.len()
    }

    /// The ids that spans wait for, ascending.
    pub fn pending_parents(&self) -> (r: SortedSet<u64>)
        ensures
            r.wf(),
            forall|p: u64| #[trigger]
                r@.contains(p) <==> exists|i: int|
                    0 <= i < self@.pending.len() && (#[trigger] self@.pending[i]).parent_id == Some(
                        p,
                    ),
    {
        let mut out: SortedSet<u64> = SortedSet::new();
        let mut i: usize = 0;
        while i < self.pending.len()
            invariant
                out.wf(),
                i <= self.pending@.len(),
                forall|p: u64| #[trigger]
                    out@.contains(p) <==> exists|j: int|
                        0 <= j < i && (#[trigger] self@.pending[j]).parent_id == Some(p),
            decreases self.pending@.len() - i,
        {
            assert(self@.pending[i as int].parent_id == self.pending@[i as int].parent_id);
            if let Some(p) = self.pending[i].parent_id {
                let _ = out.insert(p);
            }
            i = i + 1;
        }
        out
    }

    pub fn split_keys(&self) -> (r: &SortedSet<String>)
        requires
            self.wf(),
        ensures
            r.wf(),
            r@ == self@.split_keys,
    {
        &self.split_keys
    }

    /// The most spans that the window holds.
    pub fn history_budget(&self) -> (n: usize)
        ensures
            n == self@.budget,
    {
        self.history_budget
    }

    /// Takes a span in. A span whose parent is not there yet waits; a span
    /// still in flight is ignored. Gives the ids that joined the window.
    pub fn absorb(&mut self, span: WireSpan) -> (ids: Vec<u64>)
        requires
            old(self).wf(),
            span.closed_at_ns is Some ==> old(self)@.budget > 0,
        ensures
            final(self).wf(),
            (final(self)@, ids@) == absorbed(old(self)@, span@),
    {
        if span.closed_at_ns.is_none() {
            let ids: Vec<u64> = Vec::new();
            assert(ids@ =~= Seq::empty());
            return ids;
        }
        self.absorb_resolved(span)
    }

    /// The bucket of a span under the split keys, where those before it are
    /// in the window.
    fn rebucket(&self, e: &Entry) -> (r: BucketKey)
        requires
            self.ring_wf(),
        ensures
            r.model() == new_bucket(self@.ring, e@, self@.split_keys),
    {
        match self.resolve(&e.span) {
            Some(bucket) => bucket,
            None => {
                let kept = keep_keys(&e.bucket.splits, &self.split_keys);
                let splits = collect_splits(&e.span.fields, &kept, &self.split_keys);
                let stack = e.bucket.stack.duplicate();
                let r = BucketKey { stack, splits };
                assert(r.model() == new_bucket(self@.ring, e@, self@.split_keys));
                r
            },
        }
    }

    /// Chooses other split keys and puts every span of the window into its
    /// new bucket. All spans stay, each in its place.
    pub fn set_split_keys(&mut self, new_keys: SortedSet<String>)
        requires
            old(self).wf(),
            new_keys.wf(),
        ensures
            final(self).wf(),
            final(self)@ == resplit(old(self)@, new_keys@),
    {
        if new_keys.same_elements(&self.split_keys) {
            return ;
        }
        let ghost before = self@;
        let ghost ring = before.ring;
        let ghost keys = new_keys@;
        let mut queue: VecDeque<Box<Entry>> = VecDeque::new();
        std::mem::swap(&mut queue, &mut self.ring);
        self.held = SortedMap::new();
        self.buckets = SortedMap::new();
        self.split_keys = new_keys;
        proof {
            assert(self@.ring =~= Seq::empty());
            assert(indexed(self@.ring, self.buckets@));
            assert(ring.take(0) =~= Seq::empty());
            assert(ring.skip(0) =~= ring);
        }
        let ghost mut k: int = 0;
        while queue.len() > 0
            invariant
                self.ring_wf(),
                0 <= k <= ring.len(),
                ring.len() <= self.history_budget,
                self@.ring == rebucketed(ring.take(k), keys),
                self@.split_keys == keys,
                self.pending == old(self).pending,
                self.history_budget == old(self).history_budget,
                ring_model(queue@) == ring.skip(k),
            decreases queue@.len(),
        {
            let ghost waiting = queue@;
            if let Some(entry) = queue.pop_front() {
                proof {
                    assert(ring_model(waiting).len() == ring.skip(k).len());
                    assert(entry@ == ring_model(waiting)[0]);
                    assert(ring.skip(k)[0] == ring[k]);
                    assert(ring_model(queue@) =~= ring.skip(k).skip(1));
                    assert(ring.skip(k).skip(1) =~= ring.skip(k + 1));
                    assert(ring.take(k + 1).drop_last() =~= ring.take(k));
                    assert(ring.take(k + 1).last() == entry@);
                    rebucketed_keeps_spans(ring.take(k), keys);
                }
                let entry: Entry = *entry;
                let bucket = self.rebucket(&entry);
                self.append(entry.span, bucket, entry.child_sum);
                proof {
                    k = k + 1;
                }
            }
        }
        proof {
            assert(ring.skip(k).len() == 0);
            assert(ring.take(k) =~= ring);
            rebucketed_keeps_spans(ring, keys);
            assert(self@.pending == before.pending);
            assert forall|i: int| 0 <= i < before.pending.len() implies match (
            #[trigger] before.pending[i]).parent_id {
                Some(p) => !has_id(self@.ring, p),
                None => false,
            } by {
                if let Some(p) = before.pending[i].parent_id {
                    assert(!has_id(before.ring, p));
                }
            }
        }
    }

    /// The spans of the window with their stacks, oldest first.
    pub fn iter_with_stack(&self) -> (r: Vec<(&WireSpan, &Vec<String>)>)
        requires
            self.wf(),
        ensures
            r@.len() == self@.ring.len(),
            forall|i: int|
                0 <= i < r@.len() ==> (#[trigger] r@[i]).0@ == self@.ring[i].span
                    && r@[i].1.model() == self@.ring[i].bucket.stack,
    {
        let mut out: Vec<(&WireSpan, &Vec<String>)> = Vec::new();
        let mut i: usize = 0;
        while i < self.ring.len()
            invariant
                self.wf(),
                i <= self.ring@.len(),
                out@.len() == i,
                forall|j: int|
                    0 <= j < i ==> (#[trigger] out@[j]).0@ == self@.ring[j].span
                        && out@[j].1.model() == self@.ring[j].bucket.stack,
            decreases self.ring@.len() - i,
        {
            assert(self@.ring[i as int] == self.ring@[i as int]@);
            out.push((&self.ring[i].span, &self.ring[i].bucket.stack));
            i = i + 1;
        }
        out
    }

    /// The stack of a span in the window.
    pub fn resolved_stack(&self, id: u64) -> (r: Option<&Vec<String>>)
        requires
            self.wf(),
        ensures
            match r {
                Some(stack) => has_id(self@.ring, id) && stack.model()
                    == self@.ring[index_of_id(self@.ring, id)].bucket.stack,
                None => !has_id(self@.ring, id),
            },
    {
        match self.entry_of(id) {
            Some(entry) => Some(&entry.bucket.stack),
            None => None,
        }
    }

    /// The time that the children of a span took; zero when the span is not
    /// in the window.
    pub fn child_sum_for(&self, id: u64) -> (r: u64)
        requires
            self.wf(),
        ensures
            r == child_sum_of(self@.ring, id),
    {
        match self.entry_of(id) {
            Some(entry) => entry.child_sum,
            None => 0,
        }
    }

    /// A span in the window.
    pub fn span_by_id(&self, id: u64) -> (r: Option<&WireSpan>)
        requires
            self.wf(),
        ensures
            match r {
                Some(span) => has_id(self@.ring, id) && span@
                    == self@.ring[index_of_id(self@.ring, id)].span,
                None => !has_id(self@.ring, id),
            },
    {
        match self.entry_of(id) {
            Some(entry) => Some(&entry.span),
            None => None,
        }
    }

    /// The values that a span and its ancestors in the window give to some
    /// keys, the nearest first to be asked, ascending by key.
    pub fn collect_splits_for(&self, id: u64, keys: &SortedSet<String>) -> (r: Vec<
        (String, String),
    >)
        requires
            self.wf(),
            keys.wf(),
        ensures
            r.model() == as_pairs(
                crate::aggregate::ring::nearest_splits(
                    self@.ring,
                    Some(id),
                    keys@,
                    crate::aggregate::ring::SPLIT_DEPTH as nat,
                ),
            ),
    {
        let ghost goal = crate::aggregate::ring::nearest_splits(
            self@.ring,
            Some(id),
            keys@,
            crate::aggregate::ring::SPLIT_DEPTH as nat,
        );
        let mut found: SortedMap<String, String> = SortedMap::new();
        let mut cursor: Option<u64> = Some(id);
        let mut left: u64 = crate::aggregate::ring::SPLIT_DEPTH;
        proof {
            assert(goal.union_prefer_right(texts(found@)) =~= goal);
        }
        while left > 0
            invariant
                self.wf(),
                keys.wf(),
                found.wf(),
                goal == crate::aggregate::ring::nearest_splits(
                    self@.ring,
                    cursor,
                    keys@,
                    left as nat,
                ).union_prefer_right(texts(found@)),
            decreases left,
        {
            let next: Option<u64> = match cursor {
                Some(at) => match self.entry_of(at) {
                    Some(entry) => {
                        let ghost acc = texts(found@);
                        add_missing(&mut found, &entry.span.fields, keys);
                        proof {
                            let own = own_splits(entry@.span, keys@);
                            let up = crate::aggregate::ring::nearest_splits(
                                self@.ring,
                                entry@.span.parent_id,
                                keys@,
                                (left - 1) as nat,
                            );
                            assert(up.union_prefer_right(own).union_prefer_right(acc)
                                =~= up.union_prefer_right(own.union_prefer_right(acc)));
                        }
                        entry.span.parent_id
                    },
                    None => None,
                },
                None => None,
            };
            left = left - 1;
            cursor = next;
        }
        proof {
            let rest = crate::aggregate::ring::nearest_splits(self@.ring, cursor, keys@, 0);
            assert(rest.union_prefer_right(texts(found@)) =~= texts(found@));
        }
        pairs_of(&found)
    }

    /// The statistics of every bucket, in the order of rows.
    pub fn rows(&self) -> (r: Vec<(BucketKey, StackStats)>)
        requires
            self.wf(),
        ensures
            rows_model(r@) == rows_of(self@.ring),
    {
        let mut out: Vec<(BucketKey, StackStats)> = Vec::new();
        let mut i: usize = 0;
        while i < self.buckets.len()
            invariant
                self.wf(),
                i <= self.buckets.listed().len(),
                out@.len() == i,
                forall|j: int|
                    0 <= j < i ==> (#[trigger] out@[j]).0.model() == self.buckets.listed()[j]
                        && out@[j].1 == stats_of(
                        shares_in(self@.ring, self.buckets.listed()[j], false),
                        shares_in(self@.ring, self.buckets.listed()[j], true),
                    ),
            decreases self.buckets.listed().len() - i,
        {
            let state = self.buckets.value_at(i);
            out.push((self.buckets.key_at(i).duplicate(), state.to_stack_stats()));
            i = i + 1;
        }
        proof {
            self.buckets.listed_is_listing();
            assert(self.buckets@.dom() =~= buckets_of(self@.ring)) by {
                assert forall|k: KeyModel|
                    self.buckets@.dom().contains(k) == buckets_of(self@.ring).contains(k) by {
                    let names = self@.ring.map_values(|e: EntryModel| e.bucket);
                    if occupied(self@.ring, k) {
                        let p = choose|p: int|
                            0 <= p < self@.ring.len() && (#[trigger] self@.ring[p]).bucket == k;
                        assert(names[p] == k);
                    }
                    if names.contains(k) {
                        let p = choose|p: int| 0 <= p < names.len() && names[p] == k;
                        assert(self@.ring[p].bucket == k);
                    }
                }
            }
            assert(rows_model(out@) =~= rows_of(self@.ring));
        }
        out
    }
}

} // verus!
