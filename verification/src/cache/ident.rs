//! How the id of an open span says where the span is kept.
//!
//! The top bits of an id tell the lane, the rest tell the slot in the lane,
//! counted from two. Zero is no id, and one is the id of a span that is not
//! recorded.

use tracing::span::Id;
use vstd::prelude::*;

verus! {

/// The id of a span that is not recorded.
pub const DISABLED: u64 = 1;

/// What is added to a slot so that no slot has the id of a span that is not
/// recorded.
pub const SLAB_OFFSET: u64 = 2;

#[verifier::external_type_specification]
#[verifier::external_body]
pub struct ExId(Id);

/// The number of a `tracing` span id.
pub uninterp spec fn id_number(id: Id) -> u64;

/// `Id::into_u64` gives the number of an id, which is never zero.
#[verifier::external_body]
pub(crate) fn id_to_u64(id: &Id) -> (n: u64)
    ensures
        n == id_number(*id),
        n > 0,
{
    id.into_u64()
}

/// `Id::from_u64` makes the id with a given number. It does not take zero.
#[verifier::external_body]
pub(crate) fn u64_to_id(n: u64) -> (id: Id)
    requires
        n > 0,
    ensures
        id_number(id) == n,
{
    Id::from_u64(n)
}

/// The id of a span that is not recorded.
pub fn disabled_id() -> (id: Id)
    ensures
        id_number(id) == DISABLED,
{
    u64_to_id(DISABLED)
}

/// How many bits of an id tell the lane, where `n` lanes are asked for.
pub open spec fn lane_bits(n: int) -> int {
    if n <= 1 {
        0
    } else if n <= 2 {
        1
    } else if n <= 4 {
        2
    } else if n <= 8 {
        3
    } else if n <= 16 {
        4
    } else if n <= 32 {
        5
    } else if n <= 64 {
        6
    } else if n <= 128 {
        7
    } else {
        8
    }
}

/// How many lanes there are with that many bits.
pub open spec fn lanes_with(bits: int) -> int {
    if bits == 0 {
        1
    } else if bits == 1 {
        2
    } else if bits == 2 {
        4
    } else if bits == 3 {
        8
    } else if bits == 4 {
        16
    } else if bits == 5 {
        32
    } else if bits == 6 {
        64
    } else if bits == 7 {
        128
    } else {
        256
    }
}

/// The distance between the ids of two neighbouring lanes. One bit is set
/// aside even where there is a single lane.
pub open spec fn lane_unit(bits: int) -> int {
    if bits <= 1 {
        0x8000_0000_0000_0000
    } else if bits == 2 {
        0x4000_0000_0000_0000
    } else if bits == 3 {
        0x2000_0000_0000_0000
    } else if bits == 4 {
        0x1000_0000_0000_0000
    } else if bits == 5 {
        0x0800_0000_0000_0000
    } else if bits == 6 {
        0x0400_0000_0000_0000
    } else if bits == 7 {
        0x0200_0000_0000_0000
    } else {
        0x0100_0000_0000_0000
    }
}

/// How lanes and slots are told from ids.
#[derive(Debug, Clone, Copy, PartialEq, Eq, Structural)]
pub struct Lanes {
    bits: u32,
}

/// The id of a slot of a lane.
pub open spec fn slot_id(bits: int, shard: int, slot: int) -> int {
    shard * lane_unit(bits) + slot + SLAB_OFFSET
}

/// The lane and the slot that an id tells, if it tells any.
pub open spec fn id_slot(bits: int, id: u64) -> Option<(int, int)> {
    let raw = id as int % lane_unit(bits);
    if id == DISABLED || raw < SLAB_OFFSET {
        None
    } else {
        Some(((id as int / lane_unit(bits)) % lanes_with(bits), raw - SLAB_OFFSET))
    }
}

impl Lanes {
    pub closed spec fn bits(self) -> int {
        self.bits as int
    }

    pub open spec fn wf(self) -> bool {
        0 <= self.bits() <= 8
    }

    /// As many lanes as asked for, brought into the range from 1 to 256 and
    /// up to the next power of two.
    pub fn new(lane_count: usize) -> (r: Self)
        ensures
            r.wf(),
            r.bits() == lane_bits(lane_count as int),
    {
        let bits: u32 = if lane_count <= 1 {
            0
        } else if lane_count <= 2 {
            1
        } else if lane_count <= 4 {
            2
        } else if lane_count <= 8 {
            3
        } else if lane_count <= 16 {
            4
        } else if lane_count <= 32 {
            5
        } else if lane_count <= 64 {
            6
        } else if lane_count <= 128 {
            7
        } else {
            8
        };
        Lanes { bits }
    }

    pub fn count(&self) -> (n: usize)
        requires
            self.wf(),
        ensures
            n == lanes_with(self.bits()),
    {
        match self.bits {
            0 => 1,
            1 => 2,
            2 => 4,
            3 => 8,
            4 => 16,
            5 => 32,
            6 => 64,
            7 => 128,
            _ => 256,
        }
    }

    /// The distance between the ids of two neighbouring lanes.
    fn unit(&self) -> (n: u64)
        requires
            self.wf(),
        ensures
            n == lane_unit(self.bits()),
    {
        match self.bits {
            0 => 0x8000_0000_0000_0000,
            1 => 0x8000_0000_0000_0000,
            2 => 0x4000_0000_0000_0000,
            3 => 0x2000_0000_0000_0000,
            4 => 0x1000_0000_0000_0000,
            5 => 0x0800_0000_0000_0000,
            6 => 0x0400_0000_0000_0000,
            7 => 0x0200_0000_0000_0000,
            _ => 0x0100_0000_0000_0000,
        }
    }

    /// The lane of a thread.
    pub fn pick_shard(&self, key: u64) -> (shard: usize)
        requires
            self.wf(),
        ensures
            shard == key as int % lanes_with(self.bits()),
            shard < lanes_with(self.bits()),
    {
        let n: u64 = self.count() as u64;
        (key % n) as usize
    }

    /// The id of a slot of a lane.
    pub fn encode_tracing_id(&self, shard: usize, slot: usize) -> (id: u64)
        requires
            self.wf(),
            shard < lanes_with(self.bits()),
            slot + SLAB_OFFSET < lane_unit(self.bits()),
        ensures
            id == slot_id(self.bits(), shard as int, slot as int),
            id != 0,
            id != DISABLED,
    {
        proof {
            slot_id_fits(self.bits(), shard as int, slot as int);
        }
        shard as u64 * self.unit() + (slot as u64 + SLAB_OFFSET)
    }

    /// The lane and the slot that an id tells. `None` for the id of a span
    /// that is not recorded and for what is no id.
    pub fn decode_tracing_id(&self, id: u64) -> (r: Option<(usize, u64)>)
        requires
            self.wf(),
        ensures
            match r {
                Some((shard, slot)) => id_slot(self.bits(), id) == Some((shard as int, slot as int))
                    && shard < lanes_with(self.bits()),
                None => id_slot(self.bits(), id) is None,
            },
    {
        if id == DISABLED {
            return None;
        }
        let unit: u64 = self.unit();
        let raw: u64 = id % unit;
        if raw < SLAB_OFFSET {
            return None;
        }
        let shard: u64 = (id / unit) % (self.count() as u64);
        Some((shard as usize, raw - SLAB_OFFSET))
    }
}

proof fn slot_id_fits(bits: int, shard: int, slot: int)
    requires
        0 <= bits <= 8,
        0 <= shard < lanes_with(bits),
        0 <= slot,
        slot + SLAB_OFFSET < lane_unit(bits),
    ensures
        SLAB_OFFSET <= slot_id(bits, shard, slot) <= u64::MAX,
        shard * lane_unit(bits) <= u64::MAX,
        0 <= shard * lane_unit(bits),
{
    let unit = lane_unit(bits);
    let n = lanes_with(bits);
    assert(0 <= shard * unit <= (n - 1) * unit) by (nonlinear_arith)
        requires
            0 <= shard <= n - 1,
            unit > 0,
    ;
    assert((n - 1) * unit + unit <= 0x1_0000_0000_0000_0000) by {
        if bits == 0 {
        } else if bits == 1 {
        } else if bits == 2 {
        } else if bits == 3 {
        } else if bits == 4 {
        } else if bits == 5 {
        } else if bits == 6 {
        } else if bits == 7 {
        } else {
        }
    }
}

/// An id tells the lane and the slot that it was made for, and it is never
/// that of a span that is not recorded.
pub proof fn ids_tell_their_slot(bits: int, shard: int, slot: int)
    requires
        0 <= bits <= 8,
        0 <= shard < lanes_with(bits),
        0 <= slot,
        slot + SLAB_OFFSET < lane_unit(bits),
    ensures
        DISABLED < slot_id(bits, shard, slot) <= u64::MAX,
        id_slot(bits, slot_id(bits, shard, slot) as u64) == Some((shard, slot)),
{
    slot_id_fits(bits, shard, slot);
    let unit = lane_unit(bits);
    let id = slot_id(bits, shard, slot);
    let low = slot + SLAB_OFFSET;
    assert(id == unit * shard + low) by (nonlinear_arith)
        requires
            id == shard * unit + low,
    ;
    vstd::arithmetic::div_mod::lemma_fundamental_div_mod_converse(id, unit, shard, low);
    vstd::arithmetic::div_mod::lemma_small_mod(shard as nat, lanes_with(bits) as nat);
}

/// Two slots never share an id.
pub proof fn slots_have_their_own_ids(bits: int, s1: int, i1: int, s2: int, i2: int)
    requires
        0 <= bits <= 8,
        0 <= s1 < lanes_with(bits),
        0 <= s2 < lanes_with(bits),
        0 <= i1,
        i1 + SLAB_OFFSET < lane_unit(bits),
        0 <= i2,
        i2 + SLAB_OFFSET < lane_unit(bits),
        slot_id(bits, s1, i1) == slot_id(bits, s2, i2),
    ensures
        s1 == s2,
        i1 == i2,
{
    ids_tell_their_slot(bits, s1, i1);
    ids_tell_their_slot(bits, s2, i2);
}

/// The number of lanes is a power of two from 1 to 256 and, as far as that
/// allows, not less than what was asked for, and less than twice as much.
pub proof fn lane_count_is_rounded_up(n: int)
    requires
        n >= 0,
    ensures
        1 <= lanes_with(lane_bits(n)) <= 256,
        n <= 256 ==> n <= lanes_with(lane_bits(n)),
        n > 1 ==> lanes_with(lane_bits(n)) < 2 * n,
        lane_bits(lanes_with(lane_bits(n))) == lane_bits(n),
{
}

} // verus!
