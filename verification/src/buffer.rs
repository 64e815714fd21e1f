//! The in-memory shard buffer: a fixed 2,000,000-byte array of 1,000,000
//! two-byte slots, and the batch-update rule applied to it.

use vstd::prelude::*;

verus! {

/// Number of slots in a shard.
pub const SLOTS: usize = 1_000_000;

/// Bytes in a shard buffer: two per slot.
pub const BUF_LEN: usize = 2_000_000;

/// Whether slot `t` of buffer contents `b` holds a record: its first byte has
/// the fill indicator set.
pub open spec fn slot_filled(b: Seq<u8>, t: int) -> bool {
    b[2 * t] & 0x80 != 0
}

/// The two bytes of slot `t`.
pub open spec fn slot_at(b: Seq<u8>, t: int) -> (u8, u8) {
    (b[2 * t], b[2 * t + 1])
}

/// The in-memory image of one shard, slot `t` at bytes 2t and 2t+1.
pub struct ShardBuffer {
    pub bytes: Vec<u8>,
}

impl View for ShardBuffer {
    type V = Seq<u8>;

    open spec fn view(&self) -> Seq<u8> {
        self.bytes@
    }
}

impl ShardBuffer {
    pub open spec fn wf(&self) -> bool {
        self@.len() == BUF_LEN
    }

    /// An all-zero buffer: every slot empty, as a shard with no file yet.
    pub fn new() -> (r: ShardBuffer)
        ensures
            r.wf(),
            forall|i: int| 0 <= i < BUF_LEN ==> r@[i] == 0u8,
            forall|t: int| 0 <= t < SLOTS ==> !slot_filled(r@, t),
    {
        let mut bytes: Vec<u8> = Vec::new();
        let mut i: usize = 0;
        while i < BUF_LEN
            invariant
                i == bytes@.len(),
                i <= BUF_LEN,
                forall|k: int| 0 <= k < i ==> bytes@[k] == 0u8,
            decreases BUF_LEN - i,
        {
            bytes.push(0);
            i = i + 1;
        }
        proof {
            assert(0u8 & 0x80 == 0) by (bit_vector);
        }
        ShardBuffer { bytes }
    }

    /// Read slot `t`.
    pub fn get_slot(&self, t: usize) -> (r: (u8, u8))
        requires
            self.wf(),
            t < SLOTS,
        ensures
            r == slot_at(self@, t as int),
    {
        (self.bytes[2 * t], self.bytes[2 * t + 1])
    }

    /// Write slot `t`: only that slot's two bytes change.
    pub fn set_slot(&mut self, t: usize, b1: u8, b2: u8)
        requires
            old(self).wf(),
            t < SLOTS,
        ensures
            final(self).wf(),
            final(self)@ == old(self)@.update(2 * (t as int), b1).update(2 * (t as int) + 1, b2),
            slot_at(final(self)@, t as int) == (b1, b2),
            forall|u: int|
                0 <= u < SLOTS && u != t ==> slot_at(final(self)@, u) == slot_at(old(self)@, u),
    {
        self.bytes.set(2 * t, b1);
        self.bytes.set(2 * t + 1, b2);
    }
}

/// The bytes of the last update in `ups` aimed at slot `t`, if any.
pub open spec fn last_write(ups: Seq<(usize, (u8, u8))>, t: int) -> Option<(u8, u8)>
    decreases ups.len(),
{
    if ups.len() == 0 {
        None
    } else if ups.last().0 == t {
        Some(ups.last().1)
    } else {
        last_write(ups.drop_last(), t)
    }
}

/// Apply a batch of slot updates to the buffer in batch order. Law: the last
/// write to a slot wins, and untouched slots keep their bytes exactly.
pub fn apply_updates(buf: &mut ShardBuffer, ups: &Vec<(usize, (u8, u8))>)
    requires
        old(buf).wf(),
        forall|k: int| 0 <= k < ups@.len() ==> (#[trigger] ups@[k]).0 < SLOTS,
    ensures
        final(buf).wf(),
        forall|t: int|
            0 <= t < SLOTS ==> slot_at(final(buf)@, t) == (match last_write(ups@, t) {
                Some(bb) => bb,
                None => slot_at(old(buf)@, t),
            }),
{
    let mut k: usize = 0;
    while k < ups.len()
        invariant
            buf.wf(),
            k <= ups@.len(),
            forall|k2: int| 0 <= k2 < ups@.len() ==> (#[trigger] ups@[k2]).0 < SLOTS,
            forall|t: int|
                0 <= t < SLOTS ==> slot_at(buf@, t) == (match last_write(
                    ups@.take(k as int),
                    t,
                ) {
                    Some(bb) => bb,
                    None => slot_at(old(buf)@, t),
                }),
        decreases ups@.len() - k,
    {
        let u: (usize, (u8, u8)) = ups[k];
        buf.set_slot(u.0, u.1.0, u.1.1);
        proof {
            assert(ups@.take(k + 1).drop_last() =~= ups@.take(k as int));
            assert(ups@.take(k + 1).last() == ups@[k as int]);
        }
        k = k + 1;
    }
    proof {
        assert(ups@.take(ups@.len() as int) =~= ups@);
    }
}

} // verus!
