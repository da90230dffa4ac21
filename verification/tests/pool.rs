//! Records that are used again.

use std::sync::atomic::{AtomicUsize, Ordering};
use std::sync::Arc;

use tracing_console::cache::pool::{ObjectPool, Resettable, ReuseRef};

#[derive(Default)]
struct Buf {
    bytes: Vec<u8>,
    drops: Option<Arc<AtomicUsize>>,
}

impl Resettable for Buf {
    fn reset(&mut self) {
        self.bytes.clear();
    }
}

impl Drop for Buf {
    fn drop(&mut self) {
        if let Some(d) = &self.drops {
            d.fetch_add(1, Ordering::Relaxed);
        }
    }
}

fn install_counter(r: &mut ReuseRef<Buf>, counter: &Arc<AtomicUsize>) {
    r.value.drops = Some(Arc::clone(counter));
}

#[test]
fn pool_starts_empty_and_grows() {
    let mut pool = ObjectPool::<Buf>::new(1, 4);
    assert_eq!(pool.ready(0), 0);
    let mut r = pool.acquire(0, true);
    r.value.bytes.extend_from_slice(b"x");
    pool.release(r, true);
    assert_eq!(pool.ready(0), 1);
}

#[test]
fn acquire_then_drop_returns_to_shard() {
    let mut pool = ObjectPool::<Buf>::new(1, 4);
    let counter = Arc::new(AtomicUsize::new(0));
    let mut r = pool.acquire(0, true);
    install_counter(&mut r, &counter);
    r.value.bytes.extend_from_slice(b"hello");
    assert_eq!(r.value.bytes, b"hello");
    pool.release(r, true);
    // It was returned: no Buf dropped.
    assert_eq!(counter.load(Ordering::Relaxed), 0);
    // Acquiring again hands back the same one, cleared.
    let r = pool.acquire(0, true);
    assert_eq!(r.value.bytes, b"");
    assert!(r.value.drops.is_some());
}

#[test]
fn full_shard_drops_overflow() {
    let mut pool = ObjectPool::<Buf>::new(1, 2);
    let counter = Arc::new(AtomicUsize::new(0));
    // The shard has room for two, so two of four drop on return.
    let mut refs: Vec<_> = (0..4).map(|_| pool.acquire(0, true)).collect();
    for r in &mut refs {
        install_counter(r, &counter);
    }
    for r in refs {
        pool.release(r, true);
    }
    assert_eq!(counter.load(Ordering::Relaxed), 2);
}

#[test]
fn contended_acquire_still_returns_on_drop() {
    let mut pool = ObjectPool::<Buf>::new(1, 4);
    // Someone else is at the shard: the item is made on the fly.
    let r = pool.acquire(0, false);
    // The shard is free again: the item is added to it.
    pool.release(r, true);
    assert_eq!(pool.ready(0), 1);
}

#[test]
fn shards_are_rounded_up_to_a_power_of_two() {
    let mut pool = ObjectPool::<Buf>::new(3, 1);
    let r = pool.acquire(7, true);
    assert_eq!(r.shard, 3);
    pool.release(r, true);
    assert_eq!(pool.ready(3), 1);
    assert_eq!(pool.ready(0), 0);
    assert_eq!(pool.shard_of(9), 1);
}

#[test]
fn a_pool_has_a_power_of_two_of_shards() {
    for (asked, made) in [(0usize, 1usize), (1, 1), (3, 4), (4, 4), (5, 8), (1000, 1024)] {
        let pool: ObjectPool<Buf> = ObjectPool::new(asked, 2);
        assert_eq!(pool.shard_of(made as u64 - 1), made - 1, "{asked}");
        assert_eq!(pool.shard_of(made as u64), 0, "{asked}");
        for shard in 0..made {
            assert_eq!(pool.ready(shard), 0);
        }
    }
}
