//! The two on-disk shard layouts and the density rule that chooses between
//! them: dense (tag 0, the raw buffer) and sparse (tag 1, one 5-byte entry
//! per present slot, ascending by offset).

use vstd::prelude::*;

use crate::buffer::{ShardBuffer, slot_filled, slot_at, SLOTS, BUF_LEN};
use crate::codec::{addr_hi, addr_mid, addr_lo, addr_val, pack_addr, unpack_addr,
    lemma_addr_round_trip};

verus! {

/// Why a shard file's bytes cannot be decoded.
#[derive(Clone, Copy, Debug, PartialEq, Eq, Structural)]
pub enum ShardError {
    /// The file is empty: it has no tag byte.
    MissingTag,
    /// A dense file whose body is not exactly 2,000,000 bytes.
    DenseBodyLength,
    /// A sparse file whose body is not a multiple of 5 bytes.
    SparseBodyLength,
    /// A sparse entry whose address is not below 1,000,000.
    SparseAddress,
}

/// Number of slots among the first `n` that are filled.
pub open spec fn filled_below(b: Seq<u8>, n: int) -> int
    decreases n,
{
    if n <= 0 {
        0
    } else {
        filled_below(b, n - 1) + if slot_filled(b, n - 1) {
            1int
        } else {
            0int
        }
    }
}

/// Fewest filled slots that still dump dense: 40% of 1,000,000, the point
/// where a sparse body (5 bytes per entry) stops being smaller.
pub const DENSE_MIN_FILLED: usize = 400_000;

/// The density rule: a buffer dumps dense iff at least 400,000 of its
/// 1,000,000 slots are filled.
pub open spec fn is_dense(b: Seq<u8>) -> bool {
    filled_below(b, SLOTS as int) >= DENSE_MIN_FILLED
}

/// The 5-byte sparse entry for slot `t`: 3-byte big-endian address, then the
/// slot's two bytes.
pub open spec fn entry_of(b: Seq<u8>, t: int) -> Seq<u8> {
    seq![
        addr_hi(t as usize),
        addr_mid(t as usize),
        addr_lo(t as usize),
        b[2 * t],
        b[2 * t + 1],
    ]
}

/// The sparse body for the first `n` slots: entries for the filled slots, in
/// ascending offset order.
pub open spec fn sparse_body(b: Seq<u8>, n: int) -> Seq<u8>
    decreases n,
{
    if n <= 0 {
        Seq::empty()
    } else {
        sparse_body(b, n - 1) + if slot_filled(b, n - 1) {
            entry_of(b, n - 1)
        } else {
            Seq::<u8>::empty()
        }
    }
}

/// The whole encoded file for buffer contents `b`: a tag byte, then the body
/// the density rule picks.
pub open spec fn spec_encode(b: Seq<u8>) -> Seq<u8> {
    if is_dense(b) {
        seq![0u8] + b
    } else {
        seq![1u8] + sparse_body(b, SLOTS as int)
    }
}

/// The address of sparse entry `k` of a body.
pub open spec fn entry_addr(body: Seq<u8>, k: int) -> usize {
    addr_val(body[5 * k], body[5 * k + 1], body[5 * k + 2])
}

/// The record bytes of sparse entry `k` of a body.
pub open spec fn entry_bytes(body: Seq<u8>, k: int) -> (u8, u8) {
    (body[5 * k + 3], body[5 * k + 4])
}

/// What replaying the first `n` entries of a sparse body leaves in slot `t`:
/// the bytes of the last entry addressed to `t`, if any.
pub open spec fn replayed(body: Seq<u8>, n: int, t: int) -> Option<(u8, u8)>
    decreases n,
{
    if n <= 0 {
        None
    } else if entry_addr(body, n - 1) == t {
        Some(entry_bytes(body, n - 1))
    } else {
        replayed(body, n - 1, t)
    }
}

/// Count the filled slots of a buffer.
pub fn count_filled(buf: &ShardBuffer) -> (r: usize)
    requires
        buf.wf(),
    ensures
        r == filled_below(buf@, SLOTS as int),
{
    let mut count: usize = 0;
    let mut t: usize = 0;
    while t < SLOTS
        invariant
            buf.wf(),
            t <= SLOTS,
            count == filled_below(buf@, t as int),
            count <= t,
        decreases SLOTS - t,
    {
        if buf.bytes[2 * t] & 0x80 != 0 {
            count = count + 1;
        }
        t = t + 1;
    }
    count
}

/// Encode a buffer as a shard file by the density rule. Law: with at least
/// 400,000 filled slots the file is dense (tag 0), with fewer it is sparse
/// (tag 1); either way the bytes are exactly `spec_encode` of the buffer.
pub fn encode_shard(buf: &ShardBuffer) -> (out: Vec<u8>)
    requires
        buf.wf(),
    ensures
        out@ == spec_encode(buf@),
{
    let filled = count_filled(buf);
    let mut out: Vec<u8> = Vec::new();
    if filled >= DENSE_MIN_FILLED {
        out.push(0u8);
        let mut i: usize = 0;
        while i < BUF_LEN
            invariant
                buf.wf(),
                i <= BUF_LEN,
                out@ == seq![0u8] + buf@.take(i as int),
            decreases BUF_LEN - i,
        {
            out.push(buf.bytes[i]);
            proof {
                assert(out@ =~= seq![0u8] + buf@.take(i + 1));
            }
            i = i + 1;
        }
        proof {
            assert(buf@.take(BUF_LEN as int) =~= buf@);
        }
    } else {
        out.push(1u8);
        proof {
            assert(out@ =~= seq![1u8] + sparse_body(buf@, 0));
        }
        let mut t: usize = 0;
        while t < SLOTS
            invariant
                buf.wf(),
                t <= SLOTS,
                out@ == seq![1u8] + sparse_body(buf@, t as int),
            decreases SLOTS - t,
        {
            let b1 = buf.bytes[2 * t];
            if b1 & 0x80 != 0 {
                let (a1, a2, a3) = pack_addr(t);
                out.push(a1);
                out.push(a2);
                out.push(a3);
                out.push(b1);
                out.push(buf.bytes[2 * t + 1]);
                proof {
                    assert(out@ =~= seq![1u8] + sparse_body(buf@, t + 1));
                }
            } else {
                proof {
                    assert(out@ =~= seq![1u8] + sparse_body(buf@, t + 1));
                }
            }
            t = t + 1;
        }
    }
    out
}

/// Decode a shard file into a buffer. A dense body must be exactly the
/// 2,000,000 buffer bytes; a sparse body must be whole 5-byte entries with
/// in-range addresses, and is replayed into an all-zero buffer in file order,
/// so a later entry for the same address wins.
pub fn decode_shard(file: &Vec<u8>) -> (r: Result<ShardBuffer, ShardError>)
    ensures
        file@.len() == 0 ==> r == Err::<ShardBuffer, ShardError>(ShardError::MissingTag),
        (file@.len() > 0 && file@[0] & 1 == 0) ==> (if file@.len() == 1 + BUF_LEN {
            r matches Ok(b) && b@ == file@.skip(1)
        } else {
            r == Err::<ShardBuffer, ShardError>(ShardError::DenseBodyLength)
        }),
        (file@.len() > 0 && file@[0] & 1 == 1) ==> ({
            let body = file@.skip(1);
            let n = body.len() / 5;
            if body.len() % 5 != 0 {
                r == Err::<ShardBuffer, ShardError>(ShardError::SparseBodyLength)
            } else if exists|k: int| 0 <= k < n && entry_addr(body, k) >= SLOTS {
                r == Err::<ShardBuffer, ShardError>(ShardError::SparseAddress)
            } else {
                r matches Ok(b) && forall|t: int|
                    0 <= t < SLOTS ==> slot_at(b@, t) == (match replayed(body, n as int, t) {
                        Some(bb) => bb,
                        None => (0u8, 0u8),
                    })
            }
        }),
        r matches Ok(b) ==> b.wf(),
{
    if file.len() == 0 {
        return Err(ShardError::MissingTag);
    }
    let tag = file[0];
    if tag & 1 == 0 {
        if file.len() != 1 + BUF_LEN {
            return Err(ShardError::DenseBodyLength);
        }
        let mut bytes: Vec<u8> = Vec::new();
        let mut i: usize = 1;
        while i < file.len()
            invariant
                file@.len() == 1 + BUF_LEN,
                1 <= i <= file@.len(),
                bytes@ == file@.subrange(1, i as int),
            decreases file@.len() - i,
        {
            bytes.push(file[i]);
            proof {
                assert(bytes@ =~= file@.subrange(1, i + 1));
            }
            i = i + 1;
        }
        proof {
            assert(file@.subrange(1, file@.len() as int) =~= file@.skip(1));
        }
        return Ok(ShardBuffer { bytes });
    }
    proof {
        assert(tag & 1 == 1) by (bit_vector)
            requires
                tag & 1 != 0,
        ;
    }
    if (file.len() - 1) % 5 != 0 {
        return Err(ShardError::SparseBodyLength);
    }
    let flen: usize = file.len();
    let n = (flen - 1) / 5;
    proof {
        vstd::arithmetic::div_mod::lemma_fundamental_div_mod((file@.len() - 1) as int, 5);
        assert(file@.len() == 1 + 5 * n);
        vstd::arithmetic::div_mod::lemma_div_multiples_vanish(n as int, 5);
        assert(file@.skip(1).len() / 5 == n as int);
    }
    let mut buf = ShardBuffer::new();
    let ghost body = file@.skip(1);
    proof {
        assert(forall|j: int| 0 <= j < body.len() ==> body[j] == file@[j + 1]);
    }
    let mut k: usize = 0;
    while k < n
        invariant
            buf.wf(),
            k <= n,
            flen == file@.len(),
            file@.len() == 1 + 5 * n,
            file@[0] & 1 == 1,
            body == file@.skip(1),
            forall|j: int| 0 <= j < body.len() ==> body[j] == file@[j + 1],
            forall|k2: int| 0 <= k2 < k ==> entry_addr(body, k2) < SLOTS,
            forall|t: int|
                0 <= t < SLOTS ==> slot_at(buf@, t) == (match replayed(body, k as int, t) {
                    Some(bb) => bb,
                    None => (0u8, 0u8),
                }),
        decreases n - k,
    {
        let base = 1 + 5 * k;
        let a = unpack_addr(file[base], file[base + 1], file[base + 2]);
        proof {
            assert(a == entry_addr(body, k as int));
        }
        if a >= SLOTS {
            proof {
                assert(entry_addr(body, k as int) >= SLOTS);
                vstd::arithmetic::div_mod::lemma_div_multiples_vanish(n as int, 5);
                vstd::arithmetic::div_mod::lemma_mod_multiples_basic(n as int, 5);
                assert(file@.skip(1).len() % 5 == 0);
                assert(file@.skip(1).len() / 5 == n as int);
            }
            return Err(ShardError::SparseAddress);
        }
        buf.set_slot(a, file[base + 3], file[base + 4]);
        k = k + 1;
    }
    Ok(buf)
}

/// Replaying reads only the first 5m bytes: bodies that agree there replay
/// alike.
proof fn lemma_replayed_prefix(body1: Seq<u8>, body2: Seq<u8>, m: int, t: int)
    requires
        0 <= m,
        5 * m <= body1.len(),
        5 * m <= body2.len(),
        forall|i: int| 0 <= i < 5 * m ==> body1[i] == body2[i],
    ensures
        replayed(body1, m, t) == replayed(body2, m, t),
    decreases m,
{
    if m > 0 {
        lemma_replayed_prefix(body1, body2, m - 1, t);
        assert(entry_addr(body1, m - 1) == entry_addr(body2, m - 1));
        assert(entry_bytes(body1, m - 1) == entry_bytes(body2, m - 1));
    }
}

/// Law (sparse layout): the sparse body of a buffer holds one entry per
/// filled slot below `n`, in strictly increasing offset order, each carrying
/// that slot's bytes; replaying it reproduces exactly the filled slots.
pub proof fn lemma_sparse_body(b: Seq<u8>, n: int)
    requires
        b.len() == BUF_LEN,
        0 <= n <= SLOTS,
    ensures
        sparse_body(b, n).len() == 5 * filled_below(b, n),
        0 <= filled_below(b, n) <= n,
        forall|k: int|
            0 <= k < filled_below(b, n) ==> {
                &&& (#[trigger] entry_addr(sparse_body(b, n), k)) < n
                &&& slot_filled(b, entry_addr(sparse_body(b, n), k) as int)
                &&& entry_bytes(sparse_body(b, n), k) == slot_at(
                    b,
                    entry_addr(sparse_body(b, n), k) as int,
                )
            },
        forall|k1: int, k2: int|
            0 <= k1 < k2 < filled_below(b, n) ==> entry_addr(sparse_body(b, n), k1) < entry_addr(
                sparse_body(b, n),
                k2,
            ),
        forall|t: int|
            0 <= t < n && slot_filled(b, t) ==> exists|k: int|
                0 <= k < filled_below(b, n) && entry_addr(sparse_body(b, n), k) == t,
        forall|t: int|
            0 <= t < SLOTS ==> (#[trigger] replayed(sparse_body(b, n), filled_below(b, n), t))
                == (if t < n && slot_filled(b, t) {
                Some(slot_at(b, t))
            } else {
                None::<(u8, u8)>
            }),
    decreases n,
{
    if n > 0 {
        lemma_sparse_body(b, n - 1);
        let prev = sparse_body(b, n - 1);
        let cnt = filled_below(b, n - 1);
        let body = sparse_body(b, n);
        if slot_filled(b, n - 1) {
            let e = entry_of(b, n - 1);
            assert(body == prev + e);
            assert(body.len() == 5 * cnt + 5);
            assert forall|k: int| 0 <= k < cnt implies entry_addr(body, k) == entry_addr(prev, k)
                && entry_bytes(body, k) == entry_bytes(prev, k) by {
                assert(body[5 * k] == prev[5 * k]);
                assert(body[5 * k + 1] == prev[5 * k + 1]);
                assert(body[5 * k + 2] == prev[5 * k + 2]);
                assert(body[5 * k + 3] == prev[5 * k + 3]);
                assert(body[5 * k + 4] == prev[5 * k + 4]);
            }
            lemma_addr_round_trip((n - 1) as usize);
            assert(body[5 * cnt] == addr_hi((n - 1) as usize));
            assert(body[5 * cnt + 1] == addr_mid((n - 1) as usize));
            assert(body[5 * cnt + 2] == addr_lo((n - 1) as usize));
            assert(entry_addr(body, cnt) == (n - 1) as usize);
            assert(entry_bytes(body, cnt) == slot_at(b, n - 1));
            assert(filled_below(b, n) == cnt + 1);
            assert forall|t: int| 0 <= t < SLOTS implies (#[trigger] replayed(
                sparse_body(b, n),
                filled_below(b, n),
                t,
            )) == (if t < n && slot_filled(b, t) {
                Some(slot_at(b, t))
            } else {
                None::<(u8, u8)>
            }) by {
                assert(forall|i: int| 0 <= i < 5 * cnt ==> prev[i] == #[trigger] body[i]);
                lemma_replayed_prefix(prev, body, cnt, t);
                assert(replayed(sparse_body(b, n), filled_below(b, n), t) == replayed(
                    body,
                    cnt + 1,
                    t,
                ));
                if t == n - 1 {
                    assert(entry_addr(body, cnt) == t);
                    assert(replayed(body, cnt + 1, t) == Some(entry_bytes(body, cnt)));
                    assert(replayed(body, cnt + 1, t) == Some(slot_at(b, t)));
                } else {
                    assert(entry_addr(body, cnt) != t);
                    assert(replayed(body, cnt + 1, t) == replayed(body, cnt, t));
                    assert(replayed(body, cnt, t) == replayed(prev, cnt, t));
                    assert(replayed(prev, cnt, t) == (if t < n - 1 && slot_filled(b, t) {
                        Some(slot_at(b, t))
                    } else {
                        None::<(u8, u8)>
                    }));
                }
            }
        } else {
            assert(body =~= prev);
            assert(filled_below(b, n) == cnt);
            assert forall|t: int| 0 <= t < SLOTS implies (#[trigger] replayed(
                sparse_body(b, n),
                filled_below(b, n),
                t,
            )) == (if t < n && slot_filled(b, t) {
                Some(slot_at(b, t))
            } else {
                None::<(u8, u8)>
            }) by {
                assert(replayed(body, cnt, t) == replayed(prev, cnt, t));
                assert(replayed(prev, cnt, t) == (if t < n - 1 && slot_filled(b, t) {
                    Some(slot_at(b, t))
                } else {
                    None::<(u8, u8)>
                }));
            }
        }
    } else {
        assert forall|t: int| 0 <= t < SLOTS implies (#[trigger] replayed(
            sparse_body(b, n),
            filled_below(b, n),
            t,
        )) == (if t < n && slot_filled(b, t) {
            Some(slot_at(b, t))
        } else {
            None::<(u8, u8)>
        }) by {
            assert(filled_below(b, n) == 0);
            assert(replayed(sparse_body(b, n), 0, t) is None);
        }
    }
}

/// Law (density threshold and round trip): a buffer with at least 400,000
/// filled slots encodes dense, one with fewer encodes sparse; either way,
/// decoding the encoded file puts back exactly the same slot contents,
/// provided empty slots hold zero bytes (as every buffer this library builds
/// does, starting from all zeros and writing only records with the fill
/// indicator set).
pub proof fn lemma_dump_load_round_trip(b: Seq<u8>)
    requires
        b.len() == BUF_LEN,
        forall|t: int| 0 <= t < SLOTS && !slot_filled(b, t) ==> slot_at(b, t) == (0u8, 0u8),
    ensures
        ({
            let file = spec_encode(b);
            &&& file.len() > 0
            &&& (is_dense(b) ==> file[0] & 1 == 0 && file.len() == 1 + BUF_LEN && file.skip(1)
                == b)
            &&& (!is_dense(b) ==> {
                let body = file.skip(1);
                let n = body.len() / 5;
                &&& file[0] & 1 == 1
                &&& body.len() % 5 == 0
                &&& (forall|k: int| 0 <= k < n ==> (#[trigger] entry_addr(body, k)) < SLOTS)
                &&& (forall|t: int|
                    0 <= t < SLOTS ==> (match replayed(body, n as int, t) {
                        Some(bb) => bb,
                        None => (0u8, 0u8),
                    }) == slot_at(b, t))
            })
        }),
{
    assert(0u8 & 1 == 0) by (bit_vector);
    assert(1u8 & 1 == 1) by (bit_vector);
    if is_dense(b) {
        assert(spec_encode(b).skip(1) =~= b);
    } else {
        lemma_sparse_body(b, SLOTS as int);
        let body0 = sparse_body(b, SLOTS as int);
        let cnt = filled_below(b, SLOTS as int);
        assert(spec_encode(b).skip(1) =~= body0);
        vstd::arithmetic::div_mod::lemma_div_multiples_vanish(cnt, 5);
        vstd::arithmetic::div_mod::lemma_mod_multiples_basic(cnt, 5);
        assert(body0.len() / 5 == cnt);
        assert(body0.len() % 5 == 0);
    }
}

} // verus!
