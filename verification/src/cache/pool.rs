//! Records that are used again instead of being made anew.

use vstd::prelude::*;

use crate::cache::record::{blank_event, EventRecord};

verus! {

/// What can be brought back to its empty form.
pub trait Resettable: Sized {
    /// `after` is the empty form of the value.
    open spec fn resets_to(&self, after: Self) -> bool {
        true
    }

    fn reset(&mut self)
        ensures
            old(self).resets_to(*final(self)),
    ;
}

impl Resettable for EventRecord {
    open spec fn resets_to(&self, after: Self) -> bool {
        after@ == blank_event()
    }

    fn reset(&mut self) {
        self.metadata = None;
        self.fields.clear();
        self.recorded_at = None;
        self.home = None;
        assert(self@.fields =~= Seq::empty());
    }
}

/// One shard of a pool: items that are ready for use.
pub struct Pool<T> {
    items: Vec<T>,
    capacity: usize,
}

impl<T: Resettable + Default> Pool<T> {
    pub closed spec fn items(&self) -> Seq<T> {
        self.items@
    }

    pub closed spec fn capacity(&self) -> nat {
        self.capacity as nat
    }

    /// The shard holds no more than it may.
    pub open spec fn wf(&self) -> bool {
        self.items().len() <= self.capacity()
    }

    pub fn new(capacity: usize) -> (r: Self)
        ensures
            r.wf(),
            r.items() == Seq::<T>::empty(),
            r.capacity() == capacity,
    {
        Pool { items: Vec::new(), capacity }
    }

    pub fn len(&self) -> (n: usize)
        ensures
            n == self.items().len(),
    {
        self.items.len()
    }

    /// Takes the item returned last. Makes a new one where there is none or
    /// where someone else is at the shard.
    pub fn try_take(&mut self, free: bool) -> (r: T)
        requires
            old(self).wf(),
        ensures
            final(self).wf(),
            final(self).capacity() == old(self).capacity(),
            free && old(self).items().len() > 0 ==> r == old(self).items().last()
                && final(self).items() == old(self).items().drop_last(),
            !(free && old(self).items().len() > 0) ==> final(self).items() == old(self).items()
                && call_ensures(T::default, (), r),
    {
        if free {
            if let Some(item) = self.items.pop() {
                return item;
            }
        }
        T::default()
    }

    /// Returns an item in its empty form. It is dropped where the shard is
    /// full or where someone else is at it.
    pub fn try_return(&mut self, value: T, free: bool)
        requires
            old(self).wf(),
        ensures
            final(self).wf(),
            final(self).capacity() == old(self).capacity(),
            final(self).items() == if free && old(self).items().len() < old(self).capacity() {
                old(self).items().push(value)
            } else {
                old(self).items()
            },
    {
        if free && self.items.len() < self.capacity {
            self.items.push(value);
        }
    }
}

/// An item out of a pool, and the shard it goes back to.
pub struct ReuseRef<T> {
    pub value: T,
    pub shard: usize,
}

/// `from` doubled until it is at least `n`.
pub open spec fn doubled(from: nat, n: nat) -> nat
    decreases (if n > from { n - from } else { 0 }),
{
    if from == 0 || from >= n {
        from
    } else {
        doubled(2 * from, n)
    }
}

/// The least power of two that is at least `n`.
pub open spec fn next_power(n: nat) -> nat {
    doubled(1, n)
}

/// Doubling never shrinks, and stops before twice the aim.
pub proof fn doubled_stays_near(from: nat, n: nat)
    requires
        from > 0,
    ensures
        from <= doubled(from, n),
        n <= doubled(from, n),
        from < 2 * n ==> doubled(from, n) < 2 * n,
    decreases (if n > from { n - from } else { 0 }),
{
    if from < n {
        doubled_stays_near(2 * from, n);
    }
}

/// Items that are used again. They are spread over shards, so that threads
/// seldom meet at one.
pub struct ObjectPool<T> {
    shards: Vec<Pool<T>>,
}

impl<T: Resettable + Default> ObjectPool<T> {
    pub closed spec fn shards(&self) -> Seq<Pool<T>> {
        self.shards@
    }

    pub open spec fn wf(&self) -> bool {
        &&& self.shards().len() > 0
        &&& forall|i: int| 0 <= i < self.shards().len() ==> (#[trigger] self.shards()[i]).wf()
    }

    /// The shards can be counted.
    pub proof fn shards_are_few(&self)
        ensures
            self.shards().len() <= usize::MAX,
    {
        vstd::std_specs::vec::axiom_spec_len(&self.shards);
    }

    /// A pool with at least as many shards as asked for, up to a power of
    /// two, each for `per_shard_capacity` items. It starts empty.
    pub fn new(shard_count: usize, per_shard_capacity: usize) -> (r: Self)
        requires
            // The next power of two fits.
            shard_count <= usize::MAX / 2 + 1,
        ensures
            r.wf(),
            r.shards().len() == next_power(shard_count as nat),
            forall|i: int|
                0 <= i < r.shards().len() ==> (#[trigger] r.shards()[i]).items() == Seq::<T>::empty()
                    && r.shards()[i].capacity() == per_shard_capacity,
    {
        proof {
            doubled_stays_near(1, shard_count as nat);
        }
        let mut n: usize = 1;
        while n < shard_count
            invariant
                0 < n,
                next_power(shard_count as nat) <= usize::MAX,
                doubled(n as nat, shard_count as nat) == next_power(shard_count as nat),
            decreases (if shard_count > n { shard_count - n } else { 0 }),
        {
            proof {
                doubled_stays_near(2 * n as nat, shard_count as nat);
            }
            n = 2 * n;
        }
        let mut shards: Vec<Pool<T>> = Vec::new();
        let mut i: usize = 0;
        while i < n
            invariant
                i <= n,
                shards@.len() == i,
                forall|j: int|
                    0 <= j < i ==> {
                        &&& (#[trigger] shards@[j]).wf()
                        &&& shards@[j].items() == Seq::<T>::empty()
                        &&& shards@[j].capacity() == per_shard_capacity
                    },
            decreases n - i,
        {
            shards.push(Pool::new(per_shard_capacity));
            i = i + 1;
        }
        ObjectPool { shards }
    }

    /// How many items wait in a shard.
    pub fn ready(&self, shard: usize) -> (n: usize)
        requires
            shard < self.shards().len(),
        ensures
            n == self.shards()[shard as int].items().len(),
    {
        self.shards[shard].len()
    }

    /// The shard of the thread with the given key.
    pub fn shard_of(&self, key: u64) -> (shard: usize)
        requires
            self.wf(),
        ensures
            shard as int == key as int % self.shards().len() as int,
            shard < self.shards().len(),
    {
        let n: u64 = self.shards.len() as u64;
        (key % n) as usize
    }

    /// Takes an item for the thread with the given key. There is always one.
    pub fn acquire(&mut self, key: u64, free: bool) -> (r: ReuseRef<T>)
        requires
            old(self).wf(),
        ensures
            final(self).wf(),
            ({
                let at = key as int % old(self).shards().len() as int;
                let was = old(self).shards()[at].items();
                let is = final(self).shards()[at].items();
                &&& r.shard as int == at
                &&& final(self).shards().len() == old(self).shards().len()
                &&& forall|i: int|
                    0 <= i < old(self).shards().len() && i != at ==> (
                    #[trigger] final(self).shards()[i]) == old(self).shards()[i]
                &&& final(self).shards()[at].capacity() == old(self).shards()[at].capacity()
                &&& free && was.len() > 0 ==> r.value == was.last() && is == was.drop_last()
                &&& !(free && was.len() > 0) ==> is == was && call_ensures(
                    T::default,
                    (),
                    r.value,
                )
            }),
    {
        let shard: usize = self.shard_of(key);
        let value = self.shards[shard].try_take(free);
        ReuseRef { value, shard }
    }

    /// Gives an item back, in its empty form.
    pub fn release(&mut self, r: ReuseRef<T>, free: bool)
        requires
            old(self).wf(),
        ensures
            final(self).wf(),
            final(self).shards().len() == old(self).shards().len(),
            forall|i: int|
                0 <= i < old(self).shards().len() && i != r.shard ==> (
                #[trigger] final(self).shards()[i]) == old(self).shards()[i],
            0 <= r.shard < old(self).shards().len() ==> {
                let was = old(self).shards()[r.shard as int];
                let is = final(self).shards()[r.shard as int];
                &&& is.capacity() == was.capacity()
                &&& if free && was.items().len() < was.capacity() {
                    &&& is.items().len() == was.items().len() + 1
                    &&& is.items().drop_last() == was.items()
                    &&& r.value.resets_to(is.items().last())
                } else {
                    is.items() == was.items()
                }
            },
    {
        let mut value = r.value;
        let shard: usize = r.shard;
        value.reset();
        if shard < self.shards.len() {
            let ghost was = self.shards@[shard as int].items();
            self.shards[shard].try_return(value, free);
            assert(was.push(value).drop_last() =~= was);
        }
    }
}

} // verus!
