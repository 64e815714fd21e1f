use ncpr::buffer::ShardBuffer;
use ncpr::codec::serialize;
use ncpr::format::{encode_shard, decode_shard, ShardError};
use ncpr::lookup::search_record;

fn filled_buffer(count: usize) -> ShardBuffer {
    let mut buf = ShardBuffer::new();
    let (b1, b2) = serialize(1, "0", "D", 1);
    for t in 0..count {
        buf.set_slot(t, b1, b2);
    }
    buf
}

#[test]
fn density_threshold_dense_at_400000() {
    let buf = filled_buffer(400_000);
    let file = encode_shard(&buf);
    assert_eq!(file[0], 0);
    assert_eq!(file.len(), 1 + 2_000_000);
    let back = decode_shard(&file).expect("dense file must decode");
    assert_eq!(back.bytes, buf.bytes);
}

#[test]
fn density_threshold_sparse_at_399999() {
    let buf = filled_buffer(399_999);
    let file = encode_shard(&buf);
    assert_eq!(file[0], 1);
    assert_eq!(file.len(), 1 + 5 * 399_999);
    let back = decode_shard(&file).expect("sparse file must decode");
    assert_eq!(back.bytes, buf.bytes);
}

#[test]
fn single_slot_dumps_sparse() {
    let mut buf = ShardBuffer::new();
    let (b1, b2) = serialize(5, "1#3", "A", 2);
    buf.set_slot(123_456, b1, b2);
    let file = encode_shard(&buf);
    assert_eq!(file[0], 1);
    assert_eq!(file.len(), 6);
    // the one entry found by binary search; every other offset absent
    let rec = search_record(&file, 123_456).unwrap();
    assert_eq!(rec, Some((5, "1#3".to_string(), "A".to_string(), 2)));
    for t in [0usize, 1, 123_455, 123_457, 999_999] {
        assert_eq!(search_record(&file, t).unwrap(), None);
    }
}

#[test]
fn sparse_entries_strictly_ascending() {
    let mut buf = ShardBuffer::new();
    let (b1, b2) = serialize(2, "4", "D", 1);
    for t in [100usize, 5, 999_999, 3] {
        buf.set_slot(t, b1, b2);
    }
    let file = encode_shard(&buf);
    assert_eq!(file[0], 1);
    assert_eq!(file.len(), 1 + 5 * 4);
    let mut addrs = Vec::new();
    for k in 0..4 {
        let base = 1 + 5 * k;
        let addr = ((file[base] as usize) << 16)
            | ((file[base + 1] as usize) << 8)
            | (file[base + 2] as usize);
        addrs.push(addr);
        assert_eq!((file[base + 3], file[base + 4]), (b1, b2));
    }
    assert_eq!(addrs, vec![3, 5, 100, 999_999]);
}

#[test]
fn sparse_replay_last_entry_wins() {
    // a hand-built sparse file with two entries for the same address
    let file = vec![
        1u8, // tag
        0, 0, 7, 0x85, 0x00, // offset 7, first record
        0, 0, 7, 0x96, 0x0b, // offset 7 again, second record
    ];
    let back = decode_shard(&file).unwrap();
    assert_eq!(back.get_slot(7), (0x96, 0x0b));
}

#[test]
fn decode_empty_file_is_missing_tag() {
    assert!(matches!(decode_shard(&Vec::new()), Err(ShardError::MissingTag)));
}

#[test]
fn decode_dense_bad_length() {
    assert!(matches!(decode_shard(&vec![0u8, 1, 2]), Err(ShardError::DenseBodyLength)));
}

#[test]
fn decode_sparse_bad_length() {
    assert!(matches!(decode_shard(&vec![1u8, 1, 2]), Err(ShardError::SparseBodyLength)));
}

#[test]
fn decode_sparse_bad_address() {
    // address 1,000,000 is out of range
    let file = vec![1u8, 0x0f, 0x42, 0x40, 0x85, 0x00];
    assert!(matches!(decode_shard(&file), Err(ShardError::SparseAddress)));
}

#[test]
fn search_reports_corruption_distinctly() {
    assert_eq!(search_record(&Vec::new(), 0), Err(ShardError::MissingTag));
    assert_eq!(search_record(&vec![0u8, 1, 2], 0), Err(ShardError::DenseBodyLength));
    assert_eq!(search_record(&vec![1u8, 1, 2], 0), Err(ShardError::SparseBodyLength));
}

#[test]
fn dense_search_reads_slot_directly() {
    let buf = filled_buffer(400_000);
    let file = encode_shard(&buf);
    assert_eq!(file[0], 0);
    let rec = search_record(&file, 399_999).unwrap();
    assert_eq!(rec, Some((1, "0".to_string(), "D".to_string(), 1)));
    assert_eq!(search_record(&file, 400_000).unwrap(), None);
}
