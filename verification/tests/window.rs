//! The window of recent spans.

use std::collections::{BTreeSet, HashMap, VecDeque};

use tracing_console::aggregate::state::Aggregator;
use tracing_console::aggregate::types::{BucketKey, StackStats};
use tracing_console::protocol::{WireFieldValue, WireLevel, WireSpan};
use tracing_console::sorted::SortedSet;

/// Whether the span and all its ancestors are there.
fn is_renderable(id: u64, by_id: &HashMap<u64, &WireSpan>, memo: &mut HashMap<u64, bool>) -> bool {
    if let Some(&hit) = memo.get(&id) {
        return hit;
    }
    let result = match by_id.get(&id) {
        None => false,
        Some(s) => match s.parent_id {
            None => true,
            Some(pid) => by_id.contains_key(&pid) && is_renderable(pid, by_id, memo),
        },
    };
    memo.insert(id, result);
    result
}

fn take_splits(s: &WireSpan, split_keys: &BTreeSet<String>, splits: &mut Vec<(String, String)>) {
    for (k, v) in &s.fields {
        if split_keys.contains(k) && !splits.iter().any(|(kk, _)| kk == k) {
            splits.push((k.clone(), v.to_string_value()));
        }
    }
}

fn bucket_key(
    span: &WireSpan,
    by_id: &HashMap<u64, &WireSpan>,
    split_keys: &BTreeSet<String>,
) -> BucketKey {
    let mut stack = vec![span.name.clone()];
    let mut splits: Vec<(String, String)> = Vec::new();
    take_splits(span, split_keys, &mut splits);
    let mut p = span.parent_id;
    while let Some(id) = p {
        if stack.len() > 64 {
            break;
        }
        match by_id.get(&id) {
            Some(parent) => {
                stack.push(parent.name.clone());
                take_splits(parent, split_keys, &mut splits);
                p = parent.parent_id;
            }
            None => break,
        }
    }
    stack.reverse();
    splits.sort_by(|a, b| a.0.cmp(&b.0));
    BucketKey { stack, splits }
}

/// The rows of some spans, worked out from all of them at once.
fn reference_bucket_by_stack<'a, I>(
    spans: I,
    split_keys: &BTreeSet<String>,
) -> Vec<(BucketKey, StackStats)>
where
    I: IntoIterator<Item = &'a WireSpan>,
{
    let spans: Vec<&WireSpan> = spans.into_iter().collect();
    let by_id: HashMap<u64, &WireSpan> = spans.iter().map(|s| (s.id, *s)).collect();
    let mut renderable: HashMap<u64, bool> = HashMap::with_capacity(spans.len());
    for s in &spans {
        is_renderable(s.id, &by_id, &mut renderable);
    }

    let mut child_sum: HashMap<u64, u64> = HashMap::new();
    for s in &spans {
        if !renderable.get(&s.id).copied().unwrap_or(false) {
            continue;
        }
        if let Some(closed) = s.closed_at_ns {
            let total = closed.saturating_sub(s.opened_at_ns);
            if let Some(p) = s.parent_id {
                *child_sum.entry(p).or_default() += total;
            }
        }
    }

    let mut by_bucket: HashMap<BucketKey, StackStats> = HashMap::new();
    for s in &spans {
        if !renderable.get(&s.id).copied().unwrap_or(false) {
            continue;
        }
        let Some(closed) = s.closed_at_ns else {
            continue;
        };
        let total = closed.saturating_sub(s.opened_at_ns);
        let self_ns = total.saturating_sub(*child_sum.get(&s.id).unwrap_or(&0));
        let key = bucket_key(s, &by_id, split_keys);
        let entry = by_bucket.entry(key).or_default();
        if entry.count == 0 {
            entry.total_min_ns = total;
            entry.total_max_ns = total;
            entry.self_min_ns = self_ns;
            entry.self_max_ns = self_ns;
        } else {
            entry.total_min_ns = entry.total_min_ns.min(total);
            entry.total_max_ns = entry.total_max_ns.max(total);
            entry.self_min_ns = entry.self_min_ns.min(self_ns);
            entry.self_max_ns = entry.self_max_ns.max(self_ns);
        }
        entry.count += 1;
        entry.total_sum_ns += total as u128;
        entry.self_sum_ns += self_ns as u128;
    }

    let mut rows: Vec<(BucketKey, StackStats)> = by_bucket.into_iter().collect();
    rows.sort_by(|a, b| {
        a.0.splits.cmp(&b.0.splits).then_with(|| a.0.stack.cmp(&b.0.stack))
    });
    rows
}

/// The ids of the parents that spans wait for.
fn waiting(a: &Aggregator) -> Vec<u64> {
    let parents = a.pending_parents();
    (0..parents.len()).map(|i| *parents.at(i)).collect()
}

fn key_set(keys: &BTreeSet<String>) -> SortedSet<String> {
    let mut out = SortedSet::new();
    for k in keys {
        out.insert(k.clone());
    }
    out
}

fn span(id: u64, parent_id: Option<u64>, name: &str, opened: u64, closed: u64) -> WireSpan {
    WireSpan {
        id,
        parent_id,
        name: name.into(),
        target: "test".into(),
        level: WireLevel::Info,
        fields: Vec::new(),
        events: Vec::new(),
        opened_at_ns: opened,
        closed_at_ns: Some(closed),
    }
}

fn span_field(
    id: u64,
    parent_id: Option<u64>,
    name: &str,
    opened: u64,
    closed: u64,
    k: &str,
    v: &str,
) -> WireSpan {
    let mut s = span(id, parent_id, name, opened, closed);
    s.fields.push((k.into(), WireFieldValue::Str(v.into())));
    s
}

fn find_row<'a>(
    rows: &'a [(BucketKey, StackStats)],
    stack: &[&str],
) -> Option<&'a (BucketKey, StackStats)> {
    rows.iter()
        .find(|(k, _)| k.stack.iter().map(String::as_str).eq(stack.iter().copied()))
}

#[test]
fn aggregate_single_root_then_child_self_ns_decreases_on_child_arrival() {
    let mut a = Aggregator::new(16);
    a.absorb(span(10, None, "root", 0, 100));
    let rows = a.rows();
    let r = find_row(&rows, &["root"]).unwrap();
    assert_eq!(r.1.count, 1);
    assert_eq!(r.1.self_min_ns, 100);
    assert_eq!(r.1.self_max_ns, 100);
    assert_eq!(r.1.total_min_ns, 100);

    a.absorb(span(11, Some(10), "child", 10, 40)); // total 30
    let rows = a.rows();
    let r = find_row(&rows, &["root"]).unwrap();
    assert_eq!(r.1.self_min_ns, 70);
    assert_eq!(r.1.self_max_ns, 70);
    let c = find_row(&rows, &["root", "child"]).unwrap();
    assert_eq!(c.1.count, 1);
    assert_eq!(c.1.total_min_ns, 30);
    assert_eq!(c.1.self_min_ns, 30);
}

#[test]
fn aggregate_child_before_parent_pending_drained() {
    let mut a = Aggregator::new(16);
    // Child arrives first — should park in pending.
    a.absorb(span(11, Some(10), "child", 10, 40));
    assert_eq!(a.len(), 0);
    assert_eq!(a.pending_len(), 1);
    let rows = a.rows();
    assert!(rows.is_empty());

    // Parent arrives — child should drain through and bucket.
    a.absorb(span(10, None, "root", 0, 100));
    assert_eq!(a.len(), 2);
    assert_eq!(a.pending_len(), 0);
    let rows = a.rows();
    assert!(find_row(&rows, &["root"]).is_some());
    assert!(find_row(&rows, &["root", "child"]).is_some());
    let r = find_row(&rows, &["root"]).unwrap();
    assert_eq!(r.1.self_min_ns, 70); // 100 - 30
}

#[test]
fn aggregate_deep_chain_arrives_leaf_first() {
    let mut a = Aggregator::new(16);
    a.absorb(span(12, Some(11), "grand", 20, 30)); // total 10
    a.absorb(span(11, Some(10), "child", 10, 50)); // total 40
    a.absorb(span(10, None, "root", 0, 100)); // total 100
    assert_eq!(a.len(), 3);
    let rows = a.rows();
    let root = find_row(&rows, &["root"]).unwrap();
    let child = find_row(&rows, &["root", "child"]).unwrap();
    let grand = find_row(&rows, &["root", "child", "grand"]).unwrap();
    assert_eq!(root.1.self_min_ns, 60); // 100 - 40
    assert_eq!(child.1.self_min_ns, 30); // 40 - 10
    assert_eq!(grand.1.self_min_ns, 10);
}

#[test]
fn aggregate_pending_overflow_evicts_lowest_parent_id() {
    let mut a = Aggregator::new(16); // pending_cap = 4
    // Queue 5 children against distinct missing parents.
    for (i, pid) in [100u64, 200, 300, 400, 500].iter().enumerate() {
        a.absorb(span(1000 + i as u64, Some(*pid), "leaf", 0, 10));
    }
    // pending_cap is 4 → the lowest parent_id (100) should be evicted.
    let keys = waiting(&a);
    assert_eq!(keys, vec![200, 300, 400, 500]);
    assert_eq!(a.pending_len(), 4);
}

#[test]
fn aggregate_eviction_restores_parent_self_ns() {
    let mut a = Aggregator::new(3); // small ring so evictions hit
    a.absorb(span(10, None, "root", 0, 100));
    a.absorb(span(11, Some(10), "c1", 0, 20));
    a.absorb(span(12, Some(10), "c2", 0, 30));
    // root.self = 100 - 50 = 50
    let r0 = find_row(&a.rows(), &["root"]).unwrap().1.self_min_ns;
    assert_eq!(r0, 50);

    // Insert one more — evict root (oldest) → c1, c2 are orphaned
    // by eviction (root removed from by_id), so their buckets get
    // cleaned up too on the next ring eviction.  This test isn't
    // about that — it's about restoring parent self.  Go on with
    // a layout where root survives.
    let mut a = Aggregator::new(8);
    a.absorb(span(10, None, "root", 0, 100));
    a.absorb(span(11, Some(10), "c1", 0, 20));
    a.absorb(span(12, Some(10), "c2", 0, 30));
    // Now force eviction of c1 by shrinking history isn't possible
    // here; instead force eviction by saturating with siblings:
    for i in 0..10 {
        a.absorb(span(100 + i, None, "filler", 0, 5));
    }
    // After enough fillers, c1 and c2 (and root) get evicted in
    // FIFO order: root first, then c1, then c2.  Verify final
    // state has no "root" bucket.
    assert!(find_row(&a.rows(), &["root"]).is_none());
}

#[test]
fn aggregate_eviction_restores_parent_self_under_explicit_eviction() {
    // history=3, insert root (10), c1 (11), c2 (12) → ring full.
    // Then insert sibling root r2 (20) → evicts oldest = root(10).
    // c1/c2 lose their parent — their buckets remain, but the
    // root bucket goes away.
    let mut a = Aggregator::new(3);
    a.absorb(span(10, None, "root", 0, 100));
    a.absorb(span(11, Some(10), "c1", 0, 20));
    a.absorb(span(12, Some(10), "c2", 0, 30));
    a.absorb(span(20, None, "r2", 0, 5));
    // After eviction of root(10), the root bucket goes empty.
    assert!(find_row(&a.rows(), &["root"]).is_none());
}

#[test]
fn aggregate_eviction_removes_empty_bucket() {
    let mut a = Aggregator::new(1);
    a.absorb(span(10, None, "first", 0, 10));
    assert_eq!(a.rows().len(), 1);
    a.absorb(span(20, None, "second", 0, 10));
    let rows = a.rows();
    assert_eq!(rows.len(), 1);
    assert_eq!(rows[0].0.stack, vec!["second".to_string()]);
}

#[test]
fn aggregate_eviction_orphans_pending_children() {
    let mut a = Aggregator::new(4);
    a.absorb(span(10, None, "root", 0, 100));
    // A never-arriving parent id 99, along with a child of root(10),
    // which is already in the ring.
    a.absorb(span(11, Some(99), "ghost_child", 0, 5));
    a.absorb(span(12, Some(10), "real_child", 0, 5));
    // Now root has 1 ring-child; one orphan waits on 99.
    assert_eq!(a.pending_len(), 1);
    // Force eviction of root by saturating.
    for i in 0..6u64 {
        a.absorb(span(100 + i, None, "fill", 0, 1));
    }
    // root evicted → pending entries waiting on root.id (10) get
    // dropped.  The pending entry waiting on 99 is unrelated and
    // stays.
    assert_eq!(a.pending_len(), 1);
    assert!(waiting(&a).contains(&99));
    assert!(!waiting(&a).contains(&10));
}

#[test]
fn aggregate_splits_change_rebuilds() {
    let mut a = Aggregator::new(16);
    a.absorb(span_field(10, None, "req", 0, 10, "api", "fetch"));
    a.absorb(span_field(11, None, "req", 0, 10, "api", "update"));
    assert_eq!(a.rows().len(), 1);

    let mut sk = BTreeSet::new();
    sk.insert("api".to_string());
    a.set_split_keys(key_set(&sk));
    let rows = a.rows();
    assert_eq!(rows.len(), 2);
    let apis: Vec<&str> = rows
        .iter()
        .map(|(k, _)| k.splits[0].1.as_str())
        .collect();
    assert!(apis.contains(&"fetch"));
    assert!(apis.contains(&"update"));
}

#[test]
fn aggregate_parity_with_reference_random_workload() {
    // Deterministic LCG so failures reproduce.
    let mut rng_state: u64 = 0xdeadbeef_cafebabe;
    let mut rng = || {
        rng_state = rng_state.wrapping_mul(6364136223846793005).wrapping_add(1442695040888963407);
        (rng_state >> 33) as u32
    };

    // History is large enough that no eviction occurs — past the
    // eviction boundary the aggregator deliberately keeps a child
    // in its bucket after its parent is evicted (the cached
    // stack makes that data still meaningful), while the
    // reference path drops it under renderability.  We compare
    // semantics, not deliberate-divergence corner cases.
    let history = 4096;
    let mut agg = Aggregator::new(history);
    let mut deque: VecDeque<WireSpan> = VecDeque::new();

    let mut next_id: u64 = 10;
    let mut roots: Vec<u64> = Vec::new();
    let mut pending_spans: Vec<WireSpan> = Vec::new();

    let mut total_emitted = 0usize;
    let max_spans = history - 100; // stay clear of eviction
    while total_emitted < max_spans {
        let action = rng() % 100;
        if action < 30 || roots.is_empty() {
            let id = next_id;
            next_id += 1;
            roots.push(id);
            pending_spans.push(span(id, None, "root", 0, 100));
        } else if action < 80 {
            let parent_idx = rng() as usize % pending_spans.len().max(1);
            let parent = pending_spans.get(parent_idx);
            let parent_id = parent.map(|p| p.id).unwrap_or(*roots.last().unwrap());
            let id = next_id;
            next_id += 1;
            pending_spans.push(span(id, Some(parent_id), "child", 5, 25));
        } else {
            if pending_spans.is_empty() {
                continue;
            }
            let take = (rng() as usize % pending_spans.len()).max(1);
            let mut chunk: Vec<_> = pending_spans.drain(..take).collect();
            if rng() % 5 == 0 {
                chunk.reverse();
            }
            for s in chunk {
                total_emitted += 1;
                deque.push_back(s.clone());
                agg.absorb(s);
            }
            if agg.pending_len() == 0 {
                let want = reference_bucket_by_stack(deque.iter(), &BTreeSet::new());
                let got = agg.rows();
                assert_eq!(got, want, "mismatch after flush");
            }
        }
    }
    // Final flush of any leftover pending_spans into both views.
    for s in pending_spans {
        deque.push_back(s.clone());
        agg.absorb(s);
    }
    if agg.pending_len() == 0 {
        let want = reference_bucket_by_stack(deque.iter(), &BTreeSet::new());
        let got = agg.rows();
        assert_eq!(got, want, "final mismatch");
    }
}

fn shown(rows: &[(BucketKey, StackStats)]) -> Vec<(Vec<String>, Vec<(String, String)>, u64, u128, u128)> {
    rows.iter()
        .map(|(k, s)| (k.stack.clone(), k.splits.clone(), s.count, s.total_sum_ns, s.self_sum_ns))
        .collect()
}

#[test]
fn snapshots_give_the_window_back() {
    let mut agg = Aggregator::new(16);
    agg.absorb(span_field(1, None, "root", 0, 100, "tenant", "a"));
    agg.absorb(span_field(2, None, "root", 0, 70, "tenant", "b"));
    agg.absorb(span(3, Some(1), "child", 10, 40));
    agg.absorb(span(9, Some(8), "early", 0, 5));
    let mut keys = SortedSet::new();
    keys.insert("tenant".to_string());
    agg.set_split_keys(keys);
    let written = agg.snapshot();
    assert_eq!(written.spans_in_order.iter().map(|s| s.id).collect::<Vec<_>>(), vec![1, 2, 3]);
    assert_eq!(written.pending.iter().map(|s| s.id).collect::<Vec<_>>(), vec![9]);
    assert_eq!(written.history_budget, 16);

    let mut back = Aggregator::restore(written);
    assert_eq!(shown(&back.rows()), shown(&agg.rows()));
    assert_eq!(back.len(), 3);
    assert_eq!(back.pending_len(), 1);
    assert!(back.split_keys().contains(&"tenant".to_string()));
    assert_eq!(back.child_sum_for(1), 30);
    // What waited still waits, and joins when its parent comes.
    assert_eq!(back.absorb(span(8, None, "late", 0, 10)), vec![8, 9]);
}

#[test]
fn a_child_without_its_parent_waits_after_a_snapshot() {
    let mut agg = Aggregator::new(2);
    agg.absorb(span(1, None, "root", 0, 100));
    agg.absorb(span(2, Some(1), "child", 10, 40));
    agg.absorb(span(3, None, "other", 0, 10));
    // The root has left; its child is still there.
    assert_eq!(agg.len(), 2);
    let back = Aggregator::restore(agg.snapshot());
    assert_eq!(back.len(), 1);
    assert_eq!(back.pending_len(), 1);
}

#[test]
fn split_keys_come_and_go_without_a_trace() {
    let mut agg = Aggregator::new(16);
    agg.absorb(span_field(1, None, "root", 0, 100, "tenant", "a"));
    agg.absorb(span_field(2, None, "root", 0, 70, "tenant", "b"));
    agg.absorb(span(3, Some(2), "child", 10, 40));
    let before = shown(&agg.rows());
    let mut keys = SortedSet::new();
    keys.insert("tenant".to_string());
    agg.set_split_keys(keys);
    assert_eq!(agg.rows().len(), 3);
    assert_eq!(agg.len(), 3);
    agg.set_split_keys(SortedSet::new());
    assert_eq!(shown(&agg.rows()), before);
}

fn names(keys: &[&str]) -> SortedSet<String> {
    let mut out = SortedSet::new();
    for k in keys {
        out.insert(k.to_string());
    }
    out
}

#[test]
fn new_split_keys_keep_spans_whose_parent_has_left() {
    let mut agg = Aggregator::new(3);
    agg.absorb(span(10, None, "root", 0, 100));
    agg.absorb(span(11, Some(10), "c1", 0, 20));
    agg.absorb(span(12, Some(10), "c2", 0, 30));
    agg.absorb(span(20, None, "r2", 0, 5));
    assert_eq!(agg.len(), 3);
    let before = shown(&agg.rows());
    agg.set_split_keys(names(&["api"]));
    assert_eq!(agg.len(), 3);
    assert_eq!(agg.pending_len(), 0);
    let rows = agg.rows();
    let stacks: Vec<Vec<String>> = rows.iter().map(|(k, _)| k.stack.clone()).collect();
    let strings = |v: &[&str]| v.iter().map(|s| s.to_string()).collect::<Vec<String>>();
    assert_eq!(
        stacks,
        vec![strings(&["r2"]), strings(&["root", "c1"]), strings(&["root", "c2"])]
    );
    assert!(rows.iter().all(|(_, s)| s.count == 1));
    assert_eq!(find_row(&rows, &["root", "c2"]).unwrap().1.total_sum_ns, 30);
    agg.set_split_keys(names(&[]));
    assert_eq!(shown(&agg.rows()), before);
}

#[test]
fn a_span_without_its_parent_keeps_what_it_inherited_for_keys_that_stay() {
    let mut agg = Aggregator::new(2);
    agg.set_split_keys(names(&["tenant"]));
    agg.absorb(span_field(1, None, "root", 0, 100, "tenant", "a"));
    agg.absorb(span_field(2, Some(1), "child", 0, 40, "api", "get"));
    agg.absorb(span(3, None, "other", 0, 10));
    agg.set_split_keys(names(&["tenant", "api"]));
    let rows = agg.rows();
    let child = find_row(&rows, &["root", "child"]).unwrap();
    let pair = |k: &str, v: &str| (k.to_string(), v.to_string());
    assert_eq!(child.0.splits, vec![pair("api", "get"), pair("tenant", "a")]);
    agg.set_split_keys(names(&["api"]));
    let rows = agg.rows();
    let child = find_row(&rows, &["root", "child"]).unwrap();
    assert_eq!(child.0.splits, vec![pair("api", "get")]);
}

#[test]
fn rows_do_not_depend_on_the_order_of_arrival() {
    let spans = || {
        vec![
            span_field(1, None, "root", 0, 100, "tenant", "a"),
            span(2, Some(1), "child", 0, 40),
            span_field(3, Some(1), "child", 40, 70, "tenant", "b"),
            span(4, Some(3), "leaf", 45, 60),
        ]
    };
    let absorb_all = |order: &[usize]| {
        let mut agg = Aggregator::new(16);
        agg.set_split_keys(names(&["tenant"]));
        let all = spans();
        for i in order {
            agg.absorb(all[*i].duplicate());
        }
        assert_eq!((agg.len(), agg.pending_len()), (4, 0));
        shown(&agg.rows())
    };
    let want = absorb_all(&[0, 1, 2, 3]);
    assert_eq!(want.len(), 4);
    for order in [[3, 2, 1, 0], [1, 3, 0, 2], [2, 0, 3, 1], [3, 0, 1, 2]] {
        assert_eq!(absorb_all(&order), want);
    }
    let mut agg = Aggregator::new(16);
    for s in spans() {
        agg.absorb(s);
    }
    for (_, row) in agg.rows() {
        assert!(row.count >= 1);
        assert!(row.total_min_ns <= row.total_avg_ns() && row.total_avg_ns() <= row.total_max_ns);
        assert!(row.self_min_ns <= row.self_avg_ns() && row.self_avg_ns() <= row.self_max_ns);
        assert!(row.self_sum_ns <= row.total_sum_ns);
    }
}
