use ncpr::codec::{serialize, deserialize, pack_addr, unpack_addr};

#[test]
fn serialize_example_values() {
    // fill bit | 5 << 2 | 2 = 0x96; prefs bits 1 and 3 | active bit = 0x0b
    assert_eq!(serialize(5, "1#3", "A", 2), (0x96, 0x0b));
}

#[test]
fn serialize_empty_prefs_sentinel() {
    // "0" means no preferences: second byte 0 when opt status is deny
    assert_eq!(serialize(1, "0", "D", 1), (0x85, 0x00));
    assert_eq!(serialize(1, "", "D", 1), (0x85, 0x00));
}

#[test]
fn serialize_sets_fill_indicator() {
    for s in 1..32u8 {
        for pt in 1..4u8 {
            let (b1, _) = serialize(s, "0", "D", pt);
            assert_ne!(b1 & 0x80, 0);
        }
    }
}

#[test]
fn deserialize_absent_when_fill_bit_clear() {
    assert_eq!(deserialize(0x00, 0x00), None);
    assert_eq!(deserialize(0x7f, 0xff), None);
}

#[test]
fn codec_round_trip_all_fields() {
    let prefs = ["0", "1", "7", "1#3", "2#5", "1#2#3#4#5#6#7"];
    for s in 1..32u8 {
        for pt in 1..4u8 {
            for o in ["A", "D"] {
                for p in prefs {
                    let (b1, b2) = serialize(s, p, o, pt);
                    let rec = deserialize(b1, b2).expect("encoded record must be present");
                    assert_eq!(rec.0, s);
                    assert_eq!(rec.1, p.to_string());
                    assert_eq!(rec.2, o.to_string());
                    assert_eq!(rec.3, pt);
                }
            }
        }
    }
}

#[test]
fn codec_round_trip_canonicalizes_prefs() {
    // decoding yields ascending order whatever the input order
    let (b1, b2) = serialize(9, "3#1", "D", 3);
    let rec = deserialize(b1, b2).unwrap();
    assert_eq!(rec, (9, "1#3".to_string(), "D".to_string(), 3));
}

#[test]
fn deserialize_no_prefs_with_active_opt() {
    // only the opt bit set in byte 2: empty preference set, status active
    assert_eq!(
        deserialize(0x85, 0x01),
        Some((1, "0".to_string(), "A".to_string(), 1))
    );
}

#[test]
fn addr_round_trip_values() {
    for j in [0usize, 1, 255, 256, 65535, 65536, 123456, 999_999] {
        let (a1, a2, a3) = pack_addr(j);
        assert_eq!(unpack_addr(a1, a2, a3), j);
    }
    assert_eq!(pack_addr(999_999), (0x0f, 0x42, 0x3f));
    assert_eq!(pack_addr(0), (0, 0, 0));
}
