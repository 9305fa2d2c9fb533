use basic_db::record::{encode_record, parse_segment};
use basic_db::writer::LogWriter;

#[test]
fn new_writer_defaults() {
    let w = LogWriter::new(3, 17);
    assert_eq!(w.get_segment_number(), 3);
    // default maximal segment size is 50 bytes: 17 + 8 + 10 + 15 = 50 fits
    assert!(!w.needs_rollover(10, 15));
    assert!(w.needs_rollover(10, 16));
}

#[test]
fn set_segment_size_changes_rollover() {
    let mut w = LogWriter::new(0, 0);
    w.set_segment_size(u16::MAX as u64);
    assert!(!w.needs_rollover(1000, 1000));
    w.set_segment_size(10);
    assert!(w.needs_rollover(1, 2));
    assert!(!w.needs_rollover(1, 1));
}

#[test]
fn write_entry_offsets_match_recovery() {
    let mut w = LogWriter::new(0, 0);
    w.set_segment_size(u16::MAX as u64);
    let mut segment = Vec::new();
    let mut locations = Vec::new();
    for (k, v) in [(&b"alpha"[..], &b"1"[..]), (b"b", b"second"), (b"", b"")] {
        let e = w.write_entry(k, v);
        assert_eq!(e.bytes, encode_record(k, v));
        segment.extend_from_slice(&e.bytes);
        locations.push((e.value_offset, e.value_len));
    }
    assert_eq!(locations[0], (13, 1));
    assert_eq!(locations[1], (14 + 8 + 1, 6));
    let recs = parse_segment(&segment);
    assert_eq!(recs.len(), 3);
    for (r, l) in recs.iter().zip(locations.iter()) {
        assert_eq!((r.value_offset, r.value_len), *l);
    }
}

#[test]
fn write_entry_asks_for_sync_every_batch() {
    let mut w = LogWriter::new(0, 0);
    w.set_segment_size(u16::MAX as u64);
    w.set_batch_size(3);
    let syncs: Vec<bool> = (0..7).map(|_| w.write_entry(b"k", b"v").sync).collect();
    assert_eq!(syncs, vec![false, false, true, false, false, true, false]);
    assert!(!w.maybe_sync());
}

#[test]
fn batch_size_zero_never_syncs() {
    let mut w = LogWriter::new(0, 0);
    w.set_batch_size(0);
    w.set_segment_size(u16::MAX as u64);
    for _ in 0..20 {
        assert!(!w.write_entry(b"k", b"v").sync);
    }
    assert!(!w.maybe_sync());
}

#[test]
fn batch_size_one_syncs_every_write() {
    let mut w = LogWriter::new(0, 0);
    w.set_batch_size(1);
    assert!(w.write_entry(b"k", b"v").sync);
    assert!(w.write_entry(b"k", b"v").sync);
}

#[test]
fn update_writer_moves_to_next_segment() {
    let mut w = LogWriter::new(4, 45);
    assert!(w.needs_rollover(1, 1));
    w.update_writer(0);
    assert_eq!(w.get_segment_number(), 5);
    assert!(!w.needs_rollover(1, 1));
    let e = w.write_entry(b"k", b"v");
    assert_eq!(e.value_offset, 9);
}

use basic_db::writer::{EntryWrite, WriteAction, WriteEvent};

/// Runs the writer's steps for one record with every new segment file
/// empty, and commits it; gives the entry and whether a sync was asked for.
fn write_one(w: &mut LogWriter, k: &[u8], v: &[u8], new_segments: &mut usize) -> (EntryWrite, bool) {
    let mut event = WriteEvent::Begin;
    let entry = loop {
        match w.write_step(k, v, event) {
            WriteAction::RollOver => event = WriteEvent::Flushed,
            WriteAction::OpenNext => {
                *new_segments += 1;
                event = WriteEvent::Opened(0);
            }
            WriteAction::Append(e) => break e,
        }
    };
    let sync = w.commit_write(k.len(), v.len());
    (entry, sync)
}

#[test]
fn write_step_appends_when_it_fits() {
    let mut w = LogWriter::new(0, 10);
    match w.write_step(b"ab", b"cd", WriteEvent::Begin) {
        WriteAction::Append(e) => {
            assert_eq!(e.bytes, encode_record(b"ab", b"cd"));
            assert_eq!(e.value_offset, 20);
            assert_eq!(e.value_len, 2);
            assert!(!e.sync);
        }
        _ => panic!("expected an append"),
    }
    // nothing is committed before the bytes are written
    assert_eq!(w.current_offset(), 10);
    assert_eq!(w.batch_count(), 0);
    assert!(!w.commit_write(2, 2));
    assert_eq!(w.current_offset(), 22);
    assert_eq!(w.batch_count(), 1);
    assert_eq!(w.get_segment_number(), 0);
}

#[test]
fn write_step_rolls_over_then_appends_in_the_new_segment() {
    let mut w = LogWriter::new(2, 40);
    assert!(matches!(w.write_step(b"key", b"value", WriteEvent::Begin), WriteAction::RollOver));
    assert_eq!(w.get_segment_number(), 2);
    assert_eq!(w.current_offset(), 40);
    assert!(matches!(w.write_step(b"key", b"value", WriteEvent::Flushed), WriteAction::OpenNext));
    assert_eq!(w.get_segment_number(), 3);
    assert_eq!(w.current_offset(), 40);
    match w.write_step(b"key", b"value", WriteEvent::Opened(7)) {
        WriteAction::Append(e) => {
            assert_eq!(e.value_offset, 18);
            assert_eq!(e.value_len, 5);
        }
        _ => panic!("expected an append"),
    }
    assert_eq!(w.current_offset(), 7);
    w.commit_write(3, 5);
    assert_eq!(w.current_offset(), 23);
}

#[test]
fn plan_entry_changes_nothing() {
    let mut w = LogWriter::new(1, 5);
    w.set_batch_size(2);
    let e = w.plan_entry(b"k", b"vv");
    assert_eq!(e.value_offset, 14);
    assert!(!e.sync);
    assert_eq!(w.current_offset(), 5);
    assert!(!w.commit_write(1, 2));
    let e = w.plan_entry(b"k", b"vv");
    assert!(e.sync);
    assert!(w.commit_write(1, 2));
    assert_eq!(w.batch_count(), 0);
}

#[test]
fn segment_stays_within_max_unless_one_record_is_larger() {
    let mut w = LogWriter::new(0, 0);
    w.set_segment_size(30);
    let mut sizes = vec![0u64];
    let mut new_segments = 0;
    for (k, v) in [(&b"a"[..], &b"12345"[..]), (b"b", b"1"), (b"c", b"123"), (b"big", &[7u8; 40][..]), (b"d", b"")] {
        let before = new_segments;
        let (e, _) = write_one(&mut w, k, v, &mut new_segments);
        if new_segments > before {
            sizes.push(0);
        }
        *sizes.last_mut().unwrap() += e.bytes.len() as u64;
        assert_eq!(w.current_offset(), *sizes.last().unwrap());
    }
    assert_eq!(sizes, vec![14 + 10, 12, 8 + 3 + 40, 9]);
    for s in &sizes {
        assert!(*s <= 30 || *s == 51);
    }
}
