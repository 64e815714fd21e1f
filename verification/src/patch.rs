//! Patch engine: key validation and splitting, per-record validation and
//! encoding, and grouping of a batch's updates by shard.

use vstd::prelude::*;

use crate::buffer::{SLOTS, last_write};
use crate::codec::{serialize, encoded_b1, encoded_b2, prefs_mask, valid_prefs_str, is_pref_digit};

verus! {

/// The value of a decimal digit character, or -1 for any other character.
pub open spec fn digit_val(c: char) -> int {
    if c == '0' {
        0
    } else if c == '1' {
        1
    } else if c == '2' {
        2
    } else if c == '3' {
        3
    } else if c == '4' {
        4
    } else if c == '5' {
        5
    } else if c == '6' {
        6
    } else if c == '7' {
        7
    } else if c == '8' {
        8
    } else if c == '9' {
        9
    } else {
        -1
    }
}

pub open spec fn is_digit(c: char) -> bool {
    digit_val(c) >= 0
}

/// The number a digit string denotes, most significant digit first.
pub open spec fn digits_val(s: Seq<char>) -> int
    decreases s.len(),
{
    if s.len() == 0 {
        0
    } else {
        digits_val(s.drop_last()) * 10 + digit_val(s.last())
    }
}

/// A well-formed key: exactly 10 decimal digits.
pub open spec fn valid_key(s: Seq<char>) -> bool {
    s.len() == 10 && forall|i: int| 0 <= i < 10 ==> is_digit(#[trigger] s[i])
}

/// The shard id a key selects: its first 4 digits.
pub open spec fn shard_of(s: Seq<char>) -> int {
    digits_val(s.take(4))
}

/// The within-shard offset a key selects: its last 6 digits.
pub open spec fn offset_of(s: Seq<char>) -> int {
    digits_val(s.skip(4))
}

pub open spec fn ten_pow(i: int) -> int {
    if i <= 0 {
        1
    } else if i == 1 {
        10
    } else if i == 2 {
        100
    } else if i == 3 {
        1000
    } else if i == 4 {
        10_000
    } else if i == 5 {
        100_000
    } else {
        1_000_000
    }
}

fn digit_of(c: char) -> (r: Option<u8>)
    ensures
        r matches Some(d) ==> is_digit(c) && d == digit_val(c),
        r is None ==> !is_digit(c),
{
    if c == '0' {
        Some(0)
    } else if c == '1' {
        Some(1)
    } else if c == '2' {
        Some(2)
    } else if c == '3' {
        Some(3)
    } else if c == '4' {
        Some(4)
    } else if c == '5' {
        Some(5)
    } else if c == '6' {
        Some(6)
    } else if c == '7' {
        Some(7)
    } else if c == '8' {
        Some(8)
    } else if c == '9' {
        Some(9)
    } else {
        None
    }
}

/// Validate a key and split it: the first 4 digits pick the shard, the last 6
/// the offset. Anything but 10 decimal digits is no key and finds no record.
pub fn split_key(pn: &str) -> (r: Option<(u32, usize)>)
    ensures
        r is Some <==> valid_key(pn@),
        r matches Some(ht) ==> {
            &&& ht.0 == shard_of(pn@)
            &&& ht.0 < 10_000
            &&& ht.1 == offset_of(pn@)
            &&& ht.1 < SLOTS
        },
{
    let n = pn.unicode_len();
    if n != 10 {
        return None;
    }
    let mut h: u32 = 0;
    let mut i: usize = 0;
    while i < 4
        invariant
            pn@.len() == 10,
            i <= 4,
            h == digits_val(pn@.take(4).take(i as int)),
            h < ten_pow(i as int),
            forall|j: int| 0 <= j < i ==> is_digit(#[trigger] pn@[j]),
        decreases 4 - i,
    {
        let c = pn.get_char(i);
        let d = match digit_of(c) {
            Some(d) => d,
            None => {
                return None;
            },
        };
        proof {
            assert(pn@.take(4).take(i + 1).drop_last() =~= pn@.take(4).take(i as int));
            assert(pn@.take(4).take(i + 1).last() == pn@[i as int]);
        }
        h = h * 10 + (d as u32);
        i = i + 1;
    }
    proof {
        assert(pn@.take(4).take(4) =~= pn@.take(4));
    }
    let mut t: usize = 0;
    let mut i2: usize = 4;
    while i2 < 10
        invariant
            pn@.len() == 10,
            4 <= i2 <= 10,
            t == digits_val(pn@.skip(4).take(i2 - 4)),
            t < ten_pow(i2 - 4),
            forall|j: int| 4 <= j < i2 ==> is_digit(#[trigger] pn@[j]),
        decreases 10 - i2,
    {
        let c = pn.get_char(i2);
        let d = match digit_of(c) {
            Some(d) => d,
            None => {
                return None;
            },
        };
        proof {
            assert(pn@.skip(4).take(i2 - 4 + 1).drop_last() =~= pn@.skip(4).take(i2 - 4));
            assert(pn@.skip(4).take(i2 - 4 + 1).last() == pn@[i2 as int]);
        }
        t = t * 10 + (d as usize);
        i2 = i2 + 1;
    }
    proof {
        assert(pn@.skip(4).take(6) =~= pn@.skip(4));
    }
    Some((h, t))
}

fn is_pref_digit_char(c: char) -> (r: bool)
    ensures
        r == is_pref_digit(c),
{
    c == '1' || c == '2' || c == '3' || c == '4' || c == '5' || c == '6' || c == '7'
}

/// Does `p` hold a well-formed preference field?
fn check_prefs(p: &str) -> (r: bool)
    ensures
        r == valid_prefs_str(p@),
{
    let n = p.unicode_len();
    if n == 1 && p.get_char(0) == '0' {
        proof {
            reveal_strlit("0");
            assert(p@ =~= "0"@);
        }
        return true;
    }
    proof {
        reveal_strlit("0");
        assert(p@ != "0"@) by {
            if p@ == "0"@ {
                assert(p@.len() == 1);
                assert(p@[0] == '0');
            }
        }
    }
    let mut i: usize = 0;
    while i < n
        invariant
            n == p@.len(),
            i <= n,
            p@ != "0"@,
            forall|j: int| 0 <= j < i ==> (p@[j] == '#' || is_pref_digit(#[trigger] p@[j])),
            forall|j: int|
                0 <= j < i - 1 ==> !(is_pref_digit(#[trigger] p@[j]) && is_pref_digit(p@[j + 1])),
        decreases n - i,
    {
        let c = p.get_char(i);
        if !(c == '#' || is_pref_digit_char(c)) {
            return false;
        }
        if i > 0 {
            let prev = p.get_char(i - 1);
            if is_pref_digit_char(prev) && is_pref_digit_char(c) {
                return false;
            }
        }
        i = i + 1;
    }
    true
}

fn check_opt(o: &str) -> (r: bool)
    ensures
        r == (o@ == "A"@ || o@ == "D"@),
{
    proof {
        reveal_strlit("A");
        reveal_strlit("D");
    }
    if o.unicode_len() != 1 {
        return false;
    }
    let c = o.get_char(0);
    if c == 'A' {
        proof {
            assert(o@ =~= "A"@);
        }
        true
    } else if c == 'D' {
        proof {
            assert(o@ =~= "D"@);
        }
        true
    } else {
        false
    }
}

/// In-range fields for one record, as the codec requires them.
pub open spec fn valid_fields(s: u8, p: Seq<char>, o: Seq<char>, pt: u8) -> bool {
    &&& 1 <= s < 32
    &&& 1 <= pt < 4
    &&& valid_prefs_str(p)
    &&& (o == "A"@ || o == "D"@)
}

/// Validate one incoming batch record and encode it. `Some` carries the
/// shard id, offset and encoded slot bytes; `None` rejects a malformed key
/// or an out-of-range field — and that record alone, never the batch.
pub fn prepare_record(s: u8, pn: &str, p: &str, o: &str, pt: u8) -> (r: Option<
    (u32, usize, (u8, u8)),
>)
    ensures
        r is Some <==> (valid_key(pn@) && valid_fields(s, p@, o@, pt)),
        r matches Some(u) ==> {
            &&& u.0 == shard_of(pn@)
            &&& u.0 < 10_000
            &&& u.1 == offset_of(pn@)
            &&& u.1 < SLOTS
            &&& u.2.0 == encoded_b1(s, pt)
            &&& u.2.1 == encoded_b2(prefs_mask(p@), o@ == "A"@)
        },
{
    let ht = match split_key(pn) {
        Some(ht) => ht,
        None => {
            return None;
        },
    };
    if !(s >= 1 && s < 32) {
        return None;
    }
    if !(pt >= 1 && pt < 4) {
        return None;
    }
    if !check_prefs(p) {
        return None;
    }
    if !check_opt(o) {
        return None;
    }
    let bytes = serialize(s, p, o, pt);
    Some((ht.0, ht.1, bytes))
}

/// The distinct shard ids of a prepared batch, in order of first appearance.
pub open spec fn shards_of(s: Seq<(u32, usize, (u8, u8))>) -> Seq<u32>
    decreases s.len(),
{
    if s.len() == 0 {
        Seq::empty()
    } else {
        let prev = shards_of(s.drop_last());
        if prev.contains(s.last().0) {
            prev
        } else {
            prev.push(s.last().0)
        }
    }
}

/// The updates of a prepared batch aimed at shard `h`, in batch order.
pub open spec fn updates_for(s: Seq<(u32, usize, (u8, u8))>, h: u32) -> Seq<(usize, (u8, u8))>
    decreases s.len(),
{
    if s.len() == 0 {
        Seq::empty()
    } else {
        let prev = updates_for(s.drop_last(), h);
        if s.last().0 == h {
            prev.push((s.last().1, s.last().2))
        } else {
            prev
        }
    }
}

/// The bytes of the last batch record aimed at shard `h`, offset `t`.
pub open spec fn last_update_in_batch(
    s: Seq<(u32, usize, (u8, u8))>,
    h: u32,
    t: usize,
) -> Option<(u8, u8)>
    decreases s.len(),
{
    if s.len() == 0 {
        None
    } else if s.last().0 == h && s.last().1 == t {
        Some(s.last().2)
    } else {
        last_update_in_batch(s.drop_last(), h, t)
    }
}

/// Law (last write wins by batch order): applying a shard's grouped updates
/// leaves in slot `t` exactly the bytes of the last record of the whole
/// batch aimed at that shard and offset.
pub proof fn lemma_group_last_write(s: Seq<(u32, usize, (u8, u8))>, h: u32, t: usize)
    ensures
        last_write(updates_for(s, h), t as int) == last_update_in_batch(s, h, t),
    decreases s.len(),
{
    if s.len() > 0 {
        lemma_group_last_write(s.drop_last(), h, t);
        let prev = updates_for(s.drop_last(), h);
        if s.last().0 == h {
            let cur = prev.push((s.last().1, s.last().2));
            assert(cur.drop_last() =~= prev);
            assert(cur.last() == (s.last().1, s.last().2));
        }
    }
}

/// Law (one group per shard): the grouped shard ids are distinct, so a batch
/// costs each touched shard exactly one load and one dump.
pub proof fn lemma_shards_distinct(s: Seq<(u32, usize, (u8, u8))>)
    ensures
        forall|g1: int, g2: int|
            0 <= g1 < g2 < shards_of(s).len() ==> shards_of(s)[g1] != shards_of(s)[g2],
    decreases s.len(),
{
    if s.len() > 0 {
        lemma_shards_distinct(s.drop_last());
        let prev = shards_of(s.drop_last());
        let cur = shards_of(s);
        if !prev.contains(s.last().0) {
            assert forall|g1: int, g2: int| 0 <= g1 < g2 < cur.len() implies cur[g1]
                != cur[g2] by {
                if g2 == cur.len() - 1 {
                    assert(cur[g1] == prev[g1]);
                    assert(prev[g1] != s.last().0);
                }
            }
        }
    }
}

fn shards_contain(v: &Vec<u32>, x: u32) -> (r: bool)
    ensures
        r == v@.contains(x),
{
    let mut i: usize = 0;
    while i < v.len()
        invariant
            i <= v@.len(),
            forall|j: int| 0 <= j < i ==> v@[j] != x,
        decreases v@.len() - i,
    {
        if v[i] == x {
            proof {
                assert(v@[i as int] == x);
            }
            return true;
        }
        i = i + 1;
    }
    false
}

/// Group a prepared batch by shard id: one group per distinct shard, in
/// order of first appearance, each carrying that shard's updates in batch
/// order.
pub fn group_updates(recs: &Vec<(u32, usize, (u8, u8))>) -> (groups: Vec<
    (u32, Vec<(usize, (u8, u8))>),
>)
    ensures
        groups@.len() == shards_of(recs@).len(),
        forall|g: int|
            0 <= g < groups@.len() ==> {
                &&& (#[trigger] groups@[g]).0 == shards_of(recs@)[g]
                &&& groups@[g].1@ == updates_for(recs@, shards_of(recs@)[g])
            },
{
    let mut shards: Vec<u32> = Vec::new();
    let mut i: usize = 0;
    while i < recs.len()
        invariant
            i <= recs@.len(),
            shards@ == shards_of(recs@.take(i as int)),
        decreases recs@.len() - i,
    {
        let h = recs[i].0;
        proof {
            assert(recs@.take(i + 1).drop_last() =~= recs@.take(i as int));
            assert(recs@.take(i + 1).last() == recs@[i as int]);
        }
        if !shards_contain(&shards, h) {
            shards.push(h);
        }
        i = i + 1;
    }
    proof {
        assert(recs@.take(recs@.len() as int) =~= recs@);
    }
    let mut groups: Vec<(u32, Vec<(usize, (u8, u8))>)> = Vec::new();
    let mut g: usize = 0;
    while g < shards.len()
        invariant
            g <= shards@.len(),
            shards@ == shards_of(recs@),
            groups@.len() == g,
            forall|g2: int|
                0 <= g2 < g ==> {
                    &&& (#[trigger] groups@[g2]).0 == shards_of(recs@)[g2]
                    &&& groups@[g2].1@ == updates_for(recs@, shards_of(recs@)[g2])
                },
        decreases shards@.len() - g,
    {
        let h = shards[g];
        let mut ups: Vec<(usize, (u8, u8))> = Vec::new();
        let mut j: usize = 0;
        while j < recs.len()
            invariant
                j <= recs@.len(),
                ups@ == updates_for(recs@.take(j as int), h),
            decreases recs@.len() - j,
        {
            let rec = recs[j];
            proof {
                assert(recs@.take(j + 1).drop_last() =~= recs@.take(j as int));
                assert(recs@.take(j + 1).last() == recs@[j as int]);
            }
            if rec.0 == h {
                ups.push((rec.1, rec.2));
            }
            j = j + 1;
        }
        proof {
            assert(recs@.take(recs@.len() as int) =~= recs@);
        }
        groups.push((h, ups));
        g = g + 1;
    }
    groups
}

} // verus!
