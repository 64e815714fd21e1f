use ncpr::buffer::{ShardBuffer, apply_updates};
use ncpr::format::encode_shard;
use ncpr::lookup::search_record;
use ncpr::patch::{split_key, prepare_record, group_updates};

#[test]
fn split_key_valid_ten_digits() {
    assert_eq!(split_key("1234567890"), Some((1234, 567890)));
    assert_eq!(split_key("0000000000"), Some((0, 0)));
    assert_eq!(split_key("9999999999"), Some((9999, 999_999)));
}

#[test]
fn split_key_rejects_malformed() {
    assert_eq!(split_key("123456789"), None); // 9 digits
    assert_eq!(split_key("12345678901"), None); // 11 digits
    assert_eq!(split_key("12a4567890"), None); // non-digit
    assert_eq!(split_key(""), None);
}

#[test]
fn prepare_record_rejects_bad_fields() {
    // each invalid field rejects that record alone
    assert!(prepare_record(5, "123456789", "1#3", "A", 2).is_none()); // short key
    assert!(prepare_record(0, "1234567890", "1#3", "A", 2).is_none()); // area code 0
    assert!(prepare_record(32, "1234567890", "1#3", "A", 2).is_none()); // area code 32
    assert!(prepare_record(5, "1234567890", "1#3", "A", 0).is_none()); // phone type 0
    assert!(prepare_record(5, "1234567890", "1#3", "A", 4).is_none()); // phone type 4
    assert!(prepare_record(5, "1234567890", "8", "A", 2).is_none()); // flag 8
    assert!(prepare_record(5, "1234567890", "13", "A", 2).is_none()); // not '#'-joined
    assert!(prepare_record(5, "1234567890", "1#3", "X", 2).is_none()); // bad opt status
    assert!(prepare_record(5, "1234567890", "1#3", "", 2).is_none());
    assert!(prepare_record(5, "1234567890", "07", "A", 2).is_none()); // flags are bare digits 1-7
}

#[test]
fn prepare_record_accepts_valid() {
    let (h, t, (b1, b2)) = prepare_record(5, "1234567890", "1#3", "A", 2).unwrap();
    assert_eq!((h, t), (1234, 567890));
    assert_eq!((b1, b2), (0x96, 0x0b));
}

#[test]
fn partial_rejection_skips_only_bad_record() {
    let batch = [
        (5u8, "1234567890", "1#3", "A", 2u8),
        (7u8, "123456789", "2", "D", 1u8), // 9 digits: rejected
        (9u8, "5550001111", "0", "D", 3u8),
    ];
    let mut prepared = Vec::new();
    let mut rejected = 0usize;
    for (s, pn, p, o, pt) in batch {
        match prepare_record(s, pn, p, o, pt) {
            Some(u) => prepared.push(u),
            None => rejected += 1,
        }
    }
    assert_eq!(rejected, 1);
    assert_eq!(prepared.len(), 2);
    assert_eq!(prepared[0].0, 1234);
    assert_eq!(prepared[1].0, 5550);
}

#[test]
fn group_one_group_per_shard_last_write_wins() {
    // three updates to one shard, two of them to the same offset
    let batch = [
        (5u8, "1234567890", "1#3", "A", 2u8),
        (6u8, "1234500000", "2", "D", 1u8),
        (7u8, "1234567890", "5", "D", 3u8), // same offset as the first
    ];
    let mut prepared = Vec::new();
    for (s, pn, p, o, pt) in batch {
        prepared.push(prepare_record(s, pn, p, o, pt).unwrap());
    }
    let groups = group_updates(&prepared);
    assert_eq!(groups.len(), 1); // one load and one dump for the shard
    let (shard, ups) = &groups[0];
    assert_eq!(*shard, 1234);
    assert_eq!(ups.len(), 3);

    let mut buf = ShardBuffer::new();
    apply_updates(&mut buf, ups);
    let file = encode_shard(&buf);
    // last write to offset 567890 wins
    let rec = search_record(&file, 567890).unwrap();
    assert_eq!(rec, Some((7, "5".to_string(), "D".to_string(), 3)));
    let rec2 = search_record(&file, 500000).unwrap();
    assert_eq!(rec2, Some((6, "2".to_string(), "D".to_string(), 1)));
}

#[test]
fn group_keeps_first_appearance_order() {
    let batch = [
        (1u8, "9999000000", "0", "D", 1u8),
        (1u8, "1111000000", "0", "D", 1u8),
        (1u8, "9999000001", "0", "D", 1u8),
        (1u8, "5555000000", "0", "D", 1u8),
    ];
    let mut prepared = Vec::new();
    for (s, pn, p, o, pt) in batch {
        prepared.push(prepare_record(s, pn, p, o, pt).unwrap());
    }
    let groups = group_updates(&prepared);
    let shards: Vec<u32> = groups.iter().map(|g| g.0).collect();
    assert_eq!(shards, vec![9999, 1111, 5555]);
    assert_eq!(groups[0].1.len(), 2);
    assert_eq!(groups[1].1.len(), 1);
    assert_eq!(groups[2].1.len(), 1);
}

#[test]
fn patch_then_search_end_to_end() {
    let u = prepare_record(5, "1234567890", "1#3", "A", 2).unwrap();
    let ups = vec![(u.1, u.2)];
    let mut buf = ShardBuffer::new();
    apply_updates(&mut buf, &ups);
    let file = encode_shard(&buf);
    let rec = search_record(&file, 567890).unwrap();
    assert_eq!(rec, Some((5, "1#3".to_string(), "A".to_string(), 2)));
    // a key never written is absent, not an error
    let absent = search_record(&file, 567891).unwrap();
    assert_eq!(absent, None);
}
