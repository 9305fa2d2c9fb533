use basic_db::index::Index;
use basic_db::protocol::{build_request, complete_set, handle_request, Action};
use basic_db::writer::{LogWriter, WriteAction, WriteEvent};

/// Serves writes as the server does, with segment files held in memory.
fn serve_writes(writes: &[(&str, &str)], segments: &mut Vec<Vec<u8>>, index: &mut Index, w: &mut LogWriter) {
    for (k, v) in writes {
        let mut event = WriteEvent::Begin;
        let e = loop {
            match w.write_step(k.as_bytes(), v.as_bytes(), event) {
                WriteAction::RollOver => event = WriteEvent::Flushed,
                WriteAction::OpenNext => {
                    segments.push(Vec::new());
                    event = WriteEvent::Opened(0);
                }
                WriteAction::Append(e) => break e,
            }
        };
        let seg = w.get_segment_number() as usize;
        assert_eq!(segments[seg].len() as u64 + 8 + k.len() as u64, e.value_offset);
        segments[seg].extend_from_slice(&e.bytes);
        w.commit_write(k.len(), v.len());
        assert_eq!(segments[seg].len() as u64, w.current_offset());
        let (response, _) = complete_set(index, w, k.as_bytes().to_vec(), e.value_offset, e.value_len);
        assert_eq!(response, vec![0, 0, 0, 0, 0]);
    }
}

fn get(index: &Index, segments: &[Vec<u8>], key: &str) -> Option<Vec<u8>> {
    match handle_request(index, &build_request("GET", key, None)) {
        Action::ReadValue((off, len, seg)) => {
            Some(segments[seg as usize][off as usize..off as usize + len].to_vec())
        }
        Action::Respond(bytes) => {
            assert_eq!(bytes, vec![0x01, 0, 0, 0, 0]);
            None
        }
        _ => panic!("unexpected action"),
    }
}

#[test]
fn get_after_set_across_segments() {
    let mut segments = vec![Vec::new()];
    let mut index = Index::new();
    let mut w = LogWriter::new(0, 0);
    let writes = [("a", "first"), ("b", "bee"), ("a", "second value"), ("c", "sea"), ("b", "b2")];
    serve_writes(&writes, &mut segments, &mut index, &mut w);
    // the default maximal segment size of 50 bytes forces new segments
    assert!(segments.len() > 1);
    assert_eq!(get(&index, &segments, "a"), Some(b"second value".to_vec()));
    assert_eq!(get(&index, &segments, "b"), Some(b"b2".to_vec()));
    assert_eq!(get(&index, &segments, "c"), Some(b"sea".to_vec()));
    assert_eq!(get(&index, &segments, "d"), None);
}

#[test]
fn recovery_matches_live_index() {
    let mut segments = vec![Vec::new()];
    let mut index = Index::new();
    let mut w = LogWriter::new(0, 0);
    let writes = [("k1", "v1"), ("k2", "v2"), ("k1", "v3"), ("k3", ""), ("k2", "a longer value")];
    serve_writes(&writes, &mut segments, &mut index, &mut w);
    let on_disk: Vec<Option<Vec<u8>>> = segments.iter().cloned().map(Some).collect();
    let mut rebuilt = Index::new();
    rebuilt.build(&on_disk);
    for key in ["k1", "k2", "k3", "k4"] {
        assert_eq!(rebuilt.get(key.as_bytes()), index.get(key.as_bytes()), "key {}", key);
    }
}

#[test]
fn crash_mid_write_loses_only_the_torn_record() {
    let mut segments = vec![Vec::new()];
    let mut index = Index::new();
    let mut w = LogWriter::new(0, 0);
    w.set_segment_size(u16::MAX as u64);
    serve_writes(&[("x", "1"), ("y", "2")], &mut segments, &mut index, &mut w);
    let e = w.plan_entry(b"x", b"new");
    segments[0].extend_from_slice(&e.bytes[..e.bytes.len() - 2]);
    let mut rebuilt = Index::new();
    rebuilt.build(&vec![Some(segments[0].clone())]);
    assert_eq!(get(&rebuilt, &segments, "x"), Some(b"1".to_vec()));
    assert_eq!(get(&rebuilt, &segments, "y"), Some(b"2".to_vec()));
}

#[test]
fn restart_then_set_then_get() {
    // a segment file left by an earlier run, with a torn record at its end
    let mut seg0 = basic_db::record::encode_record(b"old", b"kept");
    let torn = basic_db::record::encode_record(b"lost", b"value");
    seg0.extend_from_slice(&torn[..6]);
    let mut segments = vec![seg0.clone()];
    let mut index = Index::new();
    index.build(&vec![Some(seg0.clone())]);
    let mut w = LogWriter::new(0, seg0.len() as u64);
    w.set_segment_size(u16::MAX as u64);
    serve_writes(&[("new", "v1"), ("old", "v2"), ("new", "v3")], &mut segments, &mut index, &mut w);
    assert_eq!(get(&index, &segments, "new"), Some(b"v3".to_vec()));
    assert_eq!(get(&index, &segments, "old"), Some(b"v2".to_vec()));
    assert_eq!(get(&index, &segments, "lost"), None);
}

#[test]
fn compact_then_set_then_get() {
    let mut segments = vec![Vec::new()];
    let mut index = Index::new();
    let mut w = LogWriter::new(0, 0);
    serve_writes(&[("a", "1"), ("b", "22"), ("a", "333")], &mut segments, &mut index, &mut w);
    let values: Vec<Vec<u8>> = index
        .locations()
        .iter()
        .map(|(o, l, s)| segments[*s as usize][*o as usize..*o as usize + l].to_vec())
        .collect();
    let (compacted, remove) = basic_db::protocol::plan_compaction(&index, &values, w.get_segment_number());
    assert_eq!(remove, (1..=w.get_segment_number()).collect::<Vec<u32>>());
    let mut segments = vec![compacted.clone()];
    let mut index = Index::new();
    index.build(&vec![Some(compacted.clone())]);
    assert_eq!(get(&index, &segments, "a"), Some(b"333".to_vec()));
    assert_eq!(get(&index, &segments, "b"), Some(b"22".to_vec()));
    let mut w = LogWriter::new(0, compacted.len() as u64);
    serve_writes(&[("b", "new b"), ("c", "c")], &mut segments, &mut index, &mut w);
    assert_eq!(get(&index, &segments, "a"), Some(b"333".to_vec()));
    assert_eq!(get(&index, &segments, "b"), Some(b"new b".to_vec()));
    assert_eq!(get(&index, &segments, "c"), Some(b"c".to_vec()));
}
