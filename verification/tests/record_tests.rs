use basic_db::record::{encode_record, encode_u32, parse_segment, read_bytes, read_u32};

fn log_of(writes: &[(&[u8], &[u8])]) -> Vec<u8> {
    let mut log = Vec::new();
    for (k, v) in writes {
        log.extend(encode_record(k, v));
    }
    log
}

#[test]
fn encode_u32_is_big_endian() {
    assert_eq!(encode_u32(0x0102_0304), [1, 2, 3, 4]);
    assert_eq!(encode_u32(0), [0, 0, 0, 0]);
    assert_eq!(encode_u32(u32::MAX), [0xff, 0xff, 0xff, 0xff]);
}

#[test]
fn encode_record_layout() {
    let rec = encode_record(b"ab", b"xyz");
    assert_eq!(rec, vec![0, 0, 0, 2, 0, 0, 0, 3, b'a', b'b', b'x', b'y', b'z']);
    let empty = encode_record(b"", b"");
    assert_eq!(empty, vec![0, 0, 0, 0, 0, 0, 0, 0]);
}

#[test]
fn read_u32_reads_and_refuses_short_input() {
    let buf = [9u8, 0, 0, 1, 0, 7];
    assert_eq!(read_u32(&buf, 1), Some(256));
    assert_eq!(read_u32(&buf, 2), Some(0x0001_0007));
    assert_eq!(read_u32(&buf, 3), None);
    assert_eq!(read_u32(&buf, 10), None);
}

#[test]
fn read_bytes_reads_and_refuses_short_input() {
    let buf = [1u8, 2, 3, 4];
    assert_eq!(read_bytes(&buf, 1, 2), Some(vec![2, 3]));
    assert_eq!(read_bytes(&buf, 4, 0), Some(vec![]));
    assert_eq!(read_bytes(&buf, 3, 2), None);
    assert_eq!(read_bytes(&buf, 5, 0), None);
}

#[test]
fn parse_segment_finds_written_records() {
    let log = log_of(&[(b"k1", b"v1"), (b"key2", b"value2")]);
    let recs = parse_segment(&log);
    assert_eq!(recs.len(), 2);
    assert_eq!(recs[0].key, b"k1".to_vec());
    assert_eq!(recs[0].value_offset, 10);
    assert_eq!(recs[0].value_len, 2);
    assert_eq!(recs[1].key, b"key2".to_vec());
    assert_eq!(recs[1].value_offset, 12 + 8 + 4);
    assert_eq!(recs[1].value_len, 6);
    let off = recs[1].value_offset as usize;
    assert_eq!(&log[off..off + 6], b"value2");
}

#[test]
fn parse_segment_empty() {
    assert_eq!(parse_segment(&[]).len(), 0);
}

#[test]
fn parse_segment_discards_torn_tail() {
    let full = log_of(&[(b"a", b"1"), (b"b", b"2")]);
    let first_len = encode_record(b"a", b"1").len();
    for cut in first_len..full.len() {
        let recs = parse_segment(&full[..cut]);
        assert_eq!(recs.len(), 1, "cut at {}", cut);
        assert_eq!(recs[0].key, b"a".to_vec());
    }
    assert_eq!(parse_segment(&full).len(), 2);
}

#[test]
fn parse_segment_discards_record_with_truncated_value() {
    let mut log = log_of(&[(b"a", b"1")]);
    log.extend(encode_record(b"key", b"value"));
    log.truncate(log.len() - 2);
    let recs = parse_segment(&log);
    assert_eq!(recs.len(), 1);
}
