//! Lookup engine: resolve one offset in an encoded shard file — a direct
//! index for dense files, binary search over the sorted entry list for
//! sparse files.

use vstd::prelude::*;

use crate::buffer::{SLOTS, BUF_LEN, slot_filled, slot_at};
use crate::codec::{deserialize, is_decoded_record, unpack_addr};
use crate::format::{ShardError, entry_addr, entry_bytes, sparse_body, filled_below,
    lemma_sparse_body};

verus! {

/// Strictly ascending entry addresses, as every dump produces.
pub open spec fn entries_sorted(body: Seq<u8>, n: int) -> bool {
    forall|k1: int, k2: int|
        0 <= k1 < k2 < n ==> entry_addr(body, k1) < entry_addr(body, k2)
}

/// The bytes of the sparse entry addressed to `t`, if one exists.
pub open spec fn sparse_lookup(body: Seq<u8>, n: int, t: int) -> Option<(u8, u8)> {
    if exists|k: int| 0 <= k < n && entry_addr(body, k) == t {
        Some(entry_bytes(body, choose|k: int| 0 <= k < n && entry_addr(body, k) == t))
    } else {
        None
    }
}

/// Law (lookup on a dumped shard): the sparse body a dump writes is sorted,
/// and looking an offset up in it yields exactly the slot's bytes when the
/// slot is filled, and nothing when it is not.
pub proof fn lemma_sparse_lookup_finds(b: Seq<u8>, t: int)
    requires
        b.len() == BUF_LEN,
        0 <= t < SLOTS,
    ensures
        entries_sorted(sparse_body(b, SLOTS as int), filled_below(b, SLOTS as int)),
        sparse_lookup(sparse_body(b, SLOTS as int), filled_below(b, SLOTS as int), t) == (
        if slot_filled(b, t) {
            Some(slot_at(b, t))
        } else {
            None::<(u8, u8)>
        }),
{
    lemma_sparse_body(b, SLOTS as int);
    let body = sparse_body(b, SLOTS as int);
    let n = filled_below(b, SLOTS as int);
    if slot_filled(b, t) {
        assert(exists|k: int| 0 <= k < n && entry_addr(body, k) == t);
        let k = choose|k: int| 0 <= k < n && entry_addr(body, k) == t;
        assert(entry_bytes(body, k) == slot_at(b, entry_addr(body, k) as int));
    } else {
        if exists|k: int| 0 <= k < n && entry_addr(body, k) == t {
            let k = choose|k: int| 0 <= k < n && entry_addr(body, k) == t;
            assert(slot_filled(b, entry_addr(body, k) as int));
        }
    }
}

/// Binary search, inclusive bounds, over the `n` entries of a sparse file
/// (`file[0]` is the tag byte; entries follow). Law: on a sorted entry list
/// it returns the bytes of the entry for every present address, and reports
/// absence for every address with no entry.
fn search_entries(file: &Vec<u8>, n: usize, key: usize) -> (r: Option<(u8, u8)>)
    requires
        file@.len() == 1 + 5 * n,
    ensures
        entries_sorted(file@.skip(1), n as int) ==> r == sparse_lookup(
            file@.skip(1),
            n as int,
            key as int,
        ),
{
    let ghost body = file@.skip(1);
    proof {
        assert(forall|j: int| 0 <= j < body.len() ==> body[j] == file@[j + 1]);
    }
    if n == 0 {
        return None;
    }
    let flen: usize = file.len();
    let mut lo: usize = 0;
    let mut hi: usize = n - 1;
    loop
        invariant
            n >= 1,
            lo <= hi + 1,
            hi < n,
            flen == file@.len(),
            file@.len() == 1 + 5 * n,
            body == file@.skip(1),
            forall|j: int| 0 <= j < body.len() ==> body[j] == file@[j + 1],
            entries_sorted(body, n as int) ==> forall|k: int|
                0 <= k < lo ==> entry_addr(body, k) < key,
            entries_sorted(body, n as int) ==> forall|k: int|
                hi < k < n ==> entry_addr(body, k) > key,
        ensures
            lo > hi,
            hi < n,
            entries_sorted(body, n as int) ==> forall|k: int|
                0 <= k < lo ==> entry_addr(body, k) < key,
            entries_sorted(body, n as int) ==> forall|k: int|
                hi < k < n ==> entry_addr(body, k) > key,
        decreases hi + 1 - lo,
    {
        if lo > hi {
            break;
        }
        let mid = lo + (hi - lo) / 2;
        let base = 1 + 5 * mid;
        let mk = unpack_addr(file[base], file[base + 1], file[base + 2]);
        proof {
            assert(mk == entry_addr(body, mid as int));
        }
        if key < mk {
            if mid == 0 {
                proof {
                    if entries_sorted(body, n as int) {
                        assert forall|k: int| 0 <= k < n implies entry_addr(body, k)
                            != key by {
                            if k > 0 {
                                assert(entry_addr(body, 0) < entry_addr(body, k));
                            }
                        }
                    }
                }
                return None;
            }
            proof {
                if entries_sorted(body, n as int) {
                    assert forall|k: int| mid - 1 < k < n implies entry_addr(body, k)
                        > key by {
                        if k > mid {
                            assert(entry_addr(body, mid as int) < entry_addr(body, k));
                        }
                    }
                }
            }
            hi = mid - 1;
        } else if key == mk {
            proof {
                if entries_sorted(body, n as int) {
                    assert(0 <= mid < n && entry_addr(body, mid as int) == key as int);
                    let kk = choose|k: int|
                        0 <= k < n && entry_addr(body, k) == key as int;
                    if kk != mid {
                        if kk < mid {
                            assert(entry_addr(body, kk) < entry_addr(body, mid as int));
                        } else {
                            assert(entry_addr(body, mid as int) < entry_addr(body, kk));
                        }
                    }
                    assert(entry_bytes(body, kk) == entry_bytes(body, mid as int));
                }
            }
            return Some((file[base + 3], file[base + 4]));
        } else {
            proof {
                if entries_sorted(body, n as int) {
                    assert forall|k: int| 0 <= k < mid + 1 implies entry_addr(body, k)
                        < key by {
                        if k < mid {
                            assert(entry_addr(body, k) < entry_addr(body, mid as int));
                        }
                    }
                }
            }
            lo = mid + 1;
        }
    }
    proof {
        if entries_sorted(body, n as int) {
            assert forall|k: int| 0 <= k < n implies entry_addr(body, k) != key by {
                if k >= lo {
                    assert(k > hi);
                }
            }
        }
    }
    None
}

/// Resolve `offset` in the bytes of one shard file: a direct index when the
/// file is dense, binary search when it is sparse. A body length inconsistent
/// with the tag is reported as corruption, never tolerated.
pub fn search_record(file: &Vec<u8>, offset: usize) -> (r: Result<
    Option<(u8, String, String, u8)>,
    ShardError,
>)
    requires
        offset < SLOTS,
    ensures
        file@.len() == 0 ==> r == Err::<Option<(u8, String, String, u8)>, ShardError>(
            ShardError::MissingTag,
        ),
        (file@.len() > 0 && file@[0] & 1 == 0) ==> (if file@.len() == 1 + BUF_LEN {
            r matches Ok(res) && is_decoded_record(
                res,
                file@[1 + 2 * (offset as int)],
                file@[2 + 2 * (offset as int)],
            )
        } else {
            r == Err::<Option<(u8, String, String, u8)>, ShardError>(ShardError::DenseBodyLength)
        }),
        (file@.len() > 0 && file@[0] & 1 == 1) ==> ({
            let body = file@.skip(1);
            if body.len() % 5 != 0 {
                r == Err::<Option<(u8, String, String, u8)>, ShardError>(
                    ShardError::SparseBodyLength,
                )
            } else {
                entries_sorted(body, (body.len() / 5) as int) ==> (r matches Ok(res) && (
                match sparse_lookup(body, (body.len() / 5) as int, offset as int) {
                    Some(bb) => is_decoded_record(res, bb.0, bb.1),
                    None => res is None,
                }))
            }
        }),
{
    if file.len() == 0 {
        return Err(ShardError::MissingTag);
    }
    let tag = file[0];
    if tag & 1 == 0 {
        if file.len() != 1 + BUF_LEN {
            return Err(ShardError::DenseBodyLength);
        }
        let b1 = file[1 + 2 * offset];
        let b2 = file[2 + 2 * offset];
        return Ok(deserialize(b1, b2));
    }
    proof {
        assert(tag & 1 == 1) by (bit_vector)
            requires
                tag & 1 != 0,
        ;
    }
    let flen: usize = file.len();
    if (flen - 1) % 5 != 0 {
        return Err(ShardError::SparseBodyLength);
    }
    let n = (flen - 1) / 5;
    proof {
        vstd::arithmetic::div_mod::lemma_fundamental_div_mod((file@.len() - 1) as int, 5);
        vstd::arithmetic::div_mod::lemma_div_multiples_vanish(n as int, 5);
        assert(file@.len() == 1 + 5 * n);
        assert(file@.skip(1).len() / 5 == n as int);
    }
    let found = search_entries(file, n, offset);
    let res = match found {
        Some(bb) => deserialize(bb.0, bb.1),
        None => None,
    };
    Ok(res)
}

} // verus!
