//! Record codec: the fixed 2-byte record encoding and the 3-byte big-endian
//! address encoding for within-shard offsets.

use vstd::prelude::*;

verus! {

/// High byte of the 3-byte big-endian address encoding of `j`.
pub open spec fn addr_hi(j: usize) -> u8 {
    ((j >> 16) & 0xff) as u8
}

/// Middle byte of the 3-byte big-endian address encoding of `j`.
pub open spec fn addr_mid(j: usize) -> u8 {
    ((j >> 8) & 0xff) as u8
}

/// Low byte of the 3-byte big-endian address encoding of `j`.
pub open spec fn addr_lo(j: usize) -> u8 {
    (j & 0xff) as u8
}

/// The offset denoted by a 3-byte big-endian address.
pub open spec fn addr_val(b1: u8, b2: u8, b3: u8) -> usize {
    (((b1 as usize) << 16) | ((b2 as usize) << 8) | (b3 as usize)) as usize
}

/// Encode an offset as a 3-byte big-endian address (the low 24 bits of `j`).
pub fn pack_addr(j: usize) -> (r: (u8, u8, u8))
    ensures
        r.0 == addr_hi(j),
        r.1 == addr_mid(j),
        r.2 == addr_lo(j),
{
    (((j >> 16) & 0xff) as u8, ((j >> 8) & 0xff) as u8, (j & 0xff) as u8)
}

/// Decode a 3-byte big-endian address back to an offset.
pub fn unpack_addr(b1: u8, b2: u8, b3: u8) -> (r: usize)
    ensures
        r == addr_val(b1, b2, b3),
        r < 0x1000000,
{
    proof {
        assert(addr_val(b1, b2, b3) < 0x1000000) by (bit_vector);
    }
    ((b1 as usize) << 16) | ((b2 as usize) << 8) | (b3 as usize)
}

/// Law: packing an offset below 1,000,000 and unpacking it gives the offset
/// back exactly.
pub proof fn lemma_addr_round_trip(j: usize)
    requires
        j < 1_000_000,
    ensures
        addr_val(addr_hi(j), addr_mid(j), addr_lo(j)) == j,
{
    assert(j < 1_000_000 ==> addr_val(addr_hi(j), addr_mid(j), addr_lo(j)) == j) by (bit_vector);
}

/// The preference flag denoted by a character: 1 through 7 for the digit
/// characters '1' through '7', and 0 for anything else (no flag).
pub open spec fn pref_digit_val(c: char) -> u8 {
    if c == '1' {
        1
    } else if c == '2' {
        2
    } else if c == '3' {
        3
    } else if c == '4' {
        4
    } else if c == '5' {
        5
    } else if c == '6' {
        6
    } else if c == '7' {
        7
    } else {
        0
    }
}

pub open spec fn is_pref_digit(c: char) -> bool {
    pref_digit_val(c) != 0
}

/// The preference bit mask denoted by a preference string: one bit at
/// position `v` (1-7) for each digit character `v` that occurs in the string.
/// Bit 0 is never set.
pub open spec fn prefs_mask(s: Seq<char>) -> u8
    decreases s.len(),
{
    if s.len() == 0 {
        0u8
    } else {
        prefs_mask(s.drop_last()) | (if is_pref_digit(s.last()) {
            (1u8 << pref_digit_val(s.last())) as u8
        } else {
            0u8
        })
    }
}

/// A well-formed preference field: the sentinel "0" (no preferences), or a
/// '#'-joined list of digits 1-7 (single digits, never two adjacent).
pub open spec fn valid_prefs_str(s: Seq<char>) -> bool {
    ||| s == "0"@
    ||| {
        &&& forall|i: int| 0 <= i < s.len() ==> s[i] == '#' || is_pref_digit(#[trigger] s[i])
        &&& forall|i: int|
            0 <= i < s.len() - 1 ==> !(is_pref_digit(#[trigger] s[i]) && is_pref_digit(s[i + 1]))
    }
}

/// First encoded byte: fill indicator (bit 7), service area code (bits 6-2),
/// phone type (bits 1-0).
pub open spec fn encoded_b1(s: u8, pt: u8) -> u8 {
    ((1u8 << 7) | (s << 2) | pt) as u8
}

/// Second encoded byte: preference bits (bits 7-1), opt status (bit 0,
/// 1 = Active).
pub open spec fn encoded_b2(mask: u8, active: bool) -> u8 {
    (mask | (if active {
        1u8
    } else {
        0u8
    })) as u8
}

/// A slot's first byte marks a present record iff its fill indicator is set.
pub open spec fn record_present(b1: u8) -> bool {
    b1 & 0x80 != 0
}

pub open spec fn decoded_sac(b1: u8) -> u8 {
    ((b1 & 0x7c) >> 2) as u8
}

pub open spec fn decoded_pt(b1: u8) -> u8 {
    (b1 & 0x03) as u8
}

pub open spec fn opt_active(b2: u8) -> bool {
    b2 & 1 == 1
}

pub open spec fn has_pref(b2: u8, d: u8) -> bool {
    (b2 >> d) & 1 == 1
}

/// The digit character for preference flag `d` (1-7).
pub open spec fn pref_char(d: u8) -> char {
    if d == 1 {
        '1'
    } else if d == 2 {
        '2'
    } else if d == 3 {
        '3'
    } else if d == 4 {
        '4'
    } else if d == 5 {
        '5'
    } else if d == 6 {
        '6'
    } else {
        '7'
    }
}

/// The canonical decoded preference string for flags 1 through `d` of `b2`:
/// ascending digits joined by '#'.
pub open spec fn canon_prefs_upto(b2: u8, d: int) -> Seq<char>
    decreases d,
{
    if d <= 0 {
        Seq::empty()
    } else {
        let prev = canon_prefs_upto(b2, d - 1);
        if has_pref(b2, d as u8) {
            if prev.len() == 0 {
                seq![pref_char(d as u8)]
            } else {
                prev + seq!['#', pref_char(d as u8)]
            }
        } else {
            prev
        }
    }
}

/// The preference string a decoder yields for the second byte: "0" when no
/// preference bit is set, else the canonical ascending '#'-joined digits.
pub open spec fn prefs_string_of(b2: u8) -> Seq<char> {
    if b2 & 0xfe == 0 {
        "0"@
    } else {
        canon_prefs_upto(b2, 7)
    }
}

pub open spec fn opt_string_of(b2: u8) -> Seq<char> {
    if opt_active(b2) {
        "A"@
    } else {
        "D"@
    }
}

/// Encode a record as its 2-byte form. The fill indicator of the first byte
/// is always set, so an encoded record is never mistaken for an empty slot.
pub fn serialize(s: u8, p: &str, o: &str, pt: u8) -> (r: (u8, u8))
    requires
        1 <= s < 32,
        1 <= pt < 4,
        valid_prefs_str(p@),
        o@ == "A"@ || o@ == "D"@,
    ensures
        r.0 == encoded_b1(s, pt),
        r.1 == encoded_b2(prefs_mask(p@), o@ == "A"@),
        record_present(r.0),
{
    let b1: u8 = (1u8 << 7) | (s << 2) | pt;
    let mut b2: u8 = 0;
    let n: usize = p.unicode_len();
    let mut i: usize = 0;
    while i < n
        invariant
            n == p@.len(),
            i <= n,
            b2 == prefs_mask(p@.take(i as int)),
        decreases n - i,
    {
        let c: char = p.get_char(i);
        let d: u8 = if c == '1' {
            1
        } else if c == '2' {
            2
        } else if c == '3' {
            3
        } else if c == '4' {
            4
        } else if c == '5' {
            5
        } else if c == '6' {
            6
        } else if c == '7' {
            7
        } else {
            0
        };
        let bit: u8 = if d != 0 {
            1u8 << d
        } else {
            0u8
        };
        proof {
            assert(p@.take(i + 1).drop_last() =~= p@.take(i as int));
            assert(p@.take(i + 1).last() == p@[i as int]);
        }
        b2 = b2 | bit;
        i = i + 1;
    }
    proof {
        assert(p@.take(n as int) =~= p@);
    }
    let active: bool = o.unicode_len() == 1 && o.get_char(0) == 'A';
    proof {
        reveal_strlit("A");
        reveal_strlit("D");
        assert(active == (o@ == "A"@));
    }
    if active {
        b2 = b2 | 1;
    }
    proof {
        let m = prefs_mask(p@);
        assert(m | 0u8 == m) by (bit_vector);
        assert(record_present(encoded_b1(s, pt))) by (bit_vector);
    }
    (b1, b2)
}

/// The exec string for the digit character of preference flag `d`.
fn pref_digit_str(d: u8) -> (r: &'static str)
    requires
        1 <= d <= 7,
    ensures
        r@ =~= seq![pref_char(d)],
{
    proof {
        reveal_strlit("1");
        reveal_strlit("2");
        reveal_strlit("3");
        reveal_strlit("4");
        reveal_strlit("5");
        reveal_strlit("6");
        reveal_strlit("7");
    }
    if d == 1 {
        "1"
    } else if d == 2 {
        "2"
    } else if d == 3 {
        "3"
    } else if d == 4 {
        "4"
    } else if d == 5 {
        "5"
    } else if d == 6 {
        "6"
    } else {
        "7"
    }
}

/// Does `res` hold exactly the record decoded from slot bytes (b1, b2)?
pub open spec fn is_decoded_record(res: Option<(u8, String, String, u8)>, b1: u8, b2: u8) -> bool {
    &&& (res is Some <==> record_present(b1))
    &&& (res matches Some(rec) ==> {
        &&& rec.0 == decoded_sac(b1)
        &&& rec.1@ == prefs_string_of(b2)
        &&& rec.2@ == opt_string_of(b2)
        &&& rec.3 == decoded_pt(b1)
    })
}

/// Decode a 2-byte slot. An unset fill indicator means no record; otherwise
/// the fields come back as (service area code, preference string, opt status
/// string, phone type), the preference string canonical ascending.
pub fn deserialize(b1: u8, b2: u8) -> (r: Option<(u8, String, String, u8)>)
    ensures
        is_decoded_record(r, b1, b2),
{
    if b1 & 0x80 == 0 {
        return None;
    }
    let sac: u8 = (b1 & 0x7c) >> 2;
    let pt: u8 = b1 & 0x03;
    let prefs: String;
    if b2 & 0xfe == 0 {
        prefs = "0".to_owned();
    } else {
        let mut acc = String::new();
        let mut first: bool = true;
        let mut d: u8 = 1;
        while d < 8
            invariant
                1 <= d <= 8,
                acc@ == canon_prefs_upto(b2, d - 1),
                first <==> acc@.len() == 0,
            decreases 8 - d,
        {
            if (b2 >> d) & 1 == 1 {
                if first {
                    acc.append(pref_digit_str(d));
                    first = false;
                } else {
                    acc.append("#");
                    acc.append(pref_digit_str(d));
                }
                proof {
                    reveal_strlit("#");
                    assert("#"@ =~= seq!['#']);
                    assert(acc@ =~= canon_prefs_upto(b2, d as int));
                }
            }
            d = d + 1;
        }
        prefs = acc;
    }
    let opt: String = if b2 & 1 == 1 {
        "A".to_owned()
    } else {
        "D".to_owned()
    };
    Some((sac, prefs, opt, pt))
}

/// The mask of preference bit positions 1 through `d`.
pub open spec fn bits_upto(d: u8) -> u8 {
    if d == 0 {
        0x00
    } else if d == 1 {
        0x02
    } else if d == 2 {
        0x06
    } else if d == 3 {
        0x0e
    } else if d == 4 {
        0x1e
    } else if d == 5 {
        0x3e
    } else if d == 6 {
        0x7e
    } else {
        0xfe
    }
}

proof fn lemma_mask_step(m: u8, d: u8, dm1: u8)
    by (bit_vector)
    requires
        1 <= d <= 7,
        dm1 == d - 1,
    ensures
        has_pref(m, d) ==> ((m & bits_upto(dm1)) | (1u8 << d)) == m & bits_upto(d),
        !has_pref(m, d) ==> (m & bits_upto(dm1)) == m & bits_upto(d),
{
}

/// A preference mask never has bit 0 set.
pub proof fn lemma_prefs_mask_low_bit(s: Seq<char>)
    ensures
        prefs_mask(s) & 1 == 0,
        prefs_mask(s) & 0xfe == prefs_mask(s),
    decreases s.len(),
{
    if s.len() == 0 {
        assert(0u8 & 1 == 0 && 0u8 & 0xfe == 0u8) by (bit_vector);
    } else {
        lemma_prefs_mask_low_bit(s.drop_last());
        let r = prefs_mask(s.drop_last());
        let v = pref_digit_val(s.last());
        if is_pref_digit(s.last()) {
            assert((r & 1 == 0 && 1 <= v && v <= 7) ==> ((r | (1u8 << v)) & 1 == 0 && ((r | (1u8
                << v)) & 0xfe) == (r | (1u8 << v)))) by (bit_vector);
        } else {
            assert(r & 1 == 0 ==> ((r | 0u8) & 1 == 0 && ((r | 0u8) & 0xfe) == (r
                | 0u8))) by (bit_vector);
        }
    }
}

/// The canonical preference string for flags 1..=d of `m` denotes exactly
/// those flags: its mask is `m` with everything above bit `d` (and bit 0)
/// cleared.
proof fn lemma_canon_mask(m: u8, d: u8)
    requires
        d <= 7,
    ensures
        prefs_mask(canon_prefs_upto(m, d as int)) == m & bits_upto(d),
    decreases d,
{
    if d == 0 {
        assert(canon_prefs_upto(m, 0) =~= Seq::<char>::empty());
        assert(m & bits_upto(0) == 0) by (bit_vector);
    } else {
        lemma_canon_mask(m, (d - 1) as u8);
        lemma_mask_step(m, d, (d - 1) as u8);
        let prev = canon_prefs_upto(m, d - 1);
        let pm = prefs_mask(prev);
        if has_pref(m, d) {
            let c = pref_char(d);
            assert(pref_digit_val(c) == d);
            if prev.len() == 0 {
                assert(prev =~= Seq::<char>::empty());
                let one = seq![c];
                assert(one.drop_last() =~= Seq::<char>::empty());
                assert(one.last() == c);
                assert(prefs_mask(one) == 0u8 | (1u8 << d));
            } else {
                let one = prev + seq!['#'];
                let two = prev + seq!['#', c];
                assert(one.drop_last() =~= prev);
                assert(one.last() == '#');
                assert(pm | 0u8 == pm) by (bit_vector);
                assert(prefs_mask(one) == pm | 0u8);
                assert(two.drop_last() =~= one);
                assert(two.last() == c);
                assert(prefs_mask(two) == prefs_mask(one) | (1u8 << d));
            }
        }
    }
}

/// Law: the encoding is injective. Two valid records that agree on their
/// encoded byte pairs agree on every field (preference sets compared as
/// masks, which never use bit 0 — see `lemma_prefs_mask_low_bit`).
pub proof fn lemma_encode_injective(
    s1: u8,
    pt1: u8,
    m1: u8,
    a1: bool,
    s2: u8,
    pt2: u8,
    m2: u8,
    a2: bool,
)
    requires
        1 <= s1 < 32,
        1 <= pt1 < 4,
        1 <= s2 < 32,
        1 <= pt2 < 4,
        m1 & 1 == 0,
        m2 & 1 == 0,
        encoded_b1(s1, pt1) == encoded_b1(s2, pt2),
        encoded_b2(m1, a1) == encoded_b2(m2, a2),
    ensures
        s1 == s2,
        pt1 == pt2,
        m1 == m2,
        a1 == a2,
{
    assert((1 <= s1 < 32 && 1 <= pt1 < 4 && 1 <= s2 < 32 && 1 <= pt2 < 4 && encoded_b1(s1, pt1)
        == encoded_b1(s2, pt2)) ==> s1 == s2 && pt1 == pt2) by (bit_vector);
    let o1: u8 = if a1 {
        1
    } else {
        0
    };
    let o2: u8 = if a2 {
        1
    } else {
        0
    };
    assert((m1 & 1 == 0 && m2 & 1 == 0 && (o1 == 0 || o1 == 1) && (o2 == 0 || o2 == 1) && (m1 | o1)
        == (m2 | o2)) ==> m1 == m2 && o1 == o2) by (bit_vector);
}

/// Law: the codec round-trips. Decoding an encoded record yields the same
/// service area code, phone type and opt status, and a preference string that
/// denotes the same preference set as the one encoded.
pub proof fn lemma_codec_round_trip(s: u8, p: Seq<char>, o: Seq<char>, pt: u8)
    requires
        1 <= s < 32,
        1 <= pt < 4,
        valid_prefs_str(p),
        o == "A"@ || o == "D"@,
    ensures
        ({
            let b1 = encoded_b1(s, pt);
            let b2 = encoded_b2(prefs_mask(p), o == "A"@);
            &&& record_present(b1)
            &&& decoded_sac(b1) == s
            &&& decoded_pt(b1) == pt
            &&& prefs_mask(prefs_string_of(b2)) == prefs_mask(p)
            &&& opt_string_of(b2) == o
        }),
{
    let m = prefs_mask(p);
    let active = (o == "A"@);
    let b2 = encoded_b2(m, active);
    assert((1 <= s && s < 32 && 1 <= pt && pt < 4) ==> record_present(encoded_b1(s, pt))
        && decoded_sac(encoded_b1(s, pt)) == s && decoded_pt(encoded_b1(s, pt))
        == pt) by (bit_vector);
    lemma_prefs_mask_low_bit(p);
    let ob: u8 = if active {
        1
    } else {
        0
    };
    assert((m & 1 == 0 && (ob == 0 || ob == 1)) ==> ((m | ob) & 1 == ob && ((m | ob) & 0xfe)
        == m)) by (bit_vector);
    reveal_strlit("A");
    reveal_strlit("D");
    assert("A"@[0] != "D"@[0]);
    if m == 0 {
        reveal_strlit("0");
        assert("0"@.len() == 1);
        assert("0"@.drop_last() =~= Seq::<char>::empty());
        assert(!is_pref_digit("0"@.last()));
        assert(prefs_mask("0"@.drop_last()) == 0u8);
        assert(prefs_mask("0"@) == 0u8 | 0u8);
        assert(0u8 | 0u8 == 0u8) by (bit_vector);
    } else {
        lemma_canon_mask(b2, 7);
        assert(b2 & bits_upto(7) == b2 & 0xfe);
    }
}

} // verus!
