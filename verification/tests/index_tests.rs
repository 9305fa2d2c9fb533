use basic_db::index::Index;
use basic_db::record::encode_record;

fn log_of(writes: &[(&[u8], &[u8])]) -> Vec<u8> {
    let mut log = Vec::new();
    for (k, v) in writes {
        log.extend(encode_record(k, v));
    }
    log
}

fn read_value(segments: &[Option<Vec<u8>>], loc: &(u64, usize, u32)) -> Vec<u8> {
    let seg = segments[loc.2 as usize].as_ref().unwrap();
    seg[loc.0 as usize..loc.0 as usize + loc.1].to_vec()
}

#[test]
fn new_index_is_empty() {
    let index = Index::new();
    assert!(index.get(b"anything").is_none());
    assert!(index.locations().is_empty());
}

#[test]
fn get_after_insert() {
    let mut index = Index::new();
    index.insert(b"k".to_vec(), 12, 3, 0);
    index.insert(b"other".to_vec(), 40, 5, 2);
    assert_eq!(index.get(b"k"), Some(&(12, 3, 0)));
    assert_eq!(index.get(b"other"), Some(&(40, 5, 2)));
    assert_eq!(index.get(b"missing"), None);
}

#[test]
fn insert_replaces_earlier_location() {
    let mut index = Index::new();
    index.insert(b"k".to_vec(), 12, 3, 0);
    index.insert(b"k".to_vec(), 99, 1, 4);
    assert_eq!(index.get(b"k"), Some(&(99, 1, 4)));
    assert_eq!(index.locations().len(), 1);
}

#[test]
fn build_finds_latest_values_across_segments() {
    let seg0 = log_of(&[(b"a", b"one"), (b"b", b"two"), (b"a", b"three")]);
    let seg2 = log_of(&[(b"b", b"four")]);
    let segments = vec![Some(seg0), None, Some(seg2)];
    let mut index = Index::new();
    index.build(&segments);
    let a = *index.get(b"a").unwrap();
    let b = *index.get(b"b").unwrap();
    assert_eq!(a.2, 0);
    assert_eq!(b.2, 2);
    assert_eq!(read_value(&segments, &a), b"three".to_vec());
    assert_eq!(read_value(&segments, &b), b"four".to_vec());
    assert!(index.get(b"c").is_none());
}

#[test]
fn build_ignores_torn_tail() {
    let mut seg0 = log_of(&[(b"a", b"one")]);
    let torn = encode_record(b"a", b"newer");
    seg0.extend_from_slice(&torn[..torn.len() - 1]);
    let segments = vec![Some(seg0)];
    let mut index = Index::new();
    index.build(&segments);
    let a = *index.get(b"a").unwrap();
    assert_eq!(read_value(&segments, &a), b"one".to_vec());
}

#[test]
fn compaction_keeps_every_value() {
    let seg0 = log_of(&[(b"a", b"1"), (b"b", b"22"), (b"a", b"333")]);
    let seg1 = log_of(&[(b"c", b"4444")]);
    let segments = vec![Some(seg0), Some(seg1)];
    let mut index = Index::new();
    index.build(&segments);
    let locs = index.locations();
    assert_eq!(locs.len(), 3);
    let values: Vec<Vec<u8>> = locs.iter().map(|l| read_value(&segments, l)).collect();
    let compacted = index.compact_log(&values);
    assert_eq!(compacted.len(), 3 * 8 + 3 + 3 + 2 + 4);
    let new_segments = vec![Some(compacted)];
    let mut rebuilt = Index::new();
    rebuilt.build(&new_segments);
    for (key, value) in [(&b"a"[..], &b"333"[..]), (b"b", b"22"), (b"c", b"4444")] {
        let loc = *rebuilt.get(key).unwrap();
        assert_eq!(loc.2, 0);
        assert_eq!(read_value(&new_segments, &loc), value.to_vec());
    }
}

#[test]
fn second_build_changes_nothing() {
    let seg0 = log_of(&[(b"a", b"one"), (b"b", b"two")]);
    let seg1 = log_of(&[(b"a", b"three")]);
    let segments = vec![Some(seg0), Some(seg1)];
    let mut index = Index::new();
    index.build(&segments);
    let after_first: Vec<_> = [&b"a"[..], b"b", b"c"].iter().map(|k| index.get(k).copied()).collect();
    index.build(&segments);
    let after_second: Vec<_> = [&b"a"[..], b"b", b"c"].iter().map(|k| index.get(k).copied()).collect();
    assert_eq!(after_first, after_second);
    assert_eq!(index.locations().len(), 2);
}

#[test]
fn get_after_a_sequence_of_inserts() {
    let mut index = Index::new();
    let inserts: [(&[u8], (u64, usize, u32)); 5] =
        [(b"x", (1, 1, 0)), (b"y", (2, 2, 0)), (b"x", (3, 3, 1)), (b"xy", (4, 4, 1)), (b"y", (5, 5, 2))];
    for (k, loc) in inserts.iter() {
        index.insert(k.to_vec(), loc.0, loc.1, loc.2);
    }
    assert_eq!(index.get(b"x"), Some(&(3, 3, 1)));
    assert_eq!(index.get(b"y"), Some(&(5, 5, 2)));
    assert_eq!(index.get(b"xy"), Some(&(4, 4, 1)));
    assert_eq!(index.get(b"yx"), None);
    assert_eq!(index.get(b""), None);
}

#[test]
fn compaction_then_removed_segments_rebuild() {
    let seg0 = log_of(&[(b"a", b"1"), (b"b", b"2")]);
    let seg1 = log_of(&[(b"a", b"3")]);
    let segments = vec![Some(seg0), Some(seg1)];
    let mut index = Index::new();
    index.build(&segments);
    let values: Vec<Vec<u8>> = index.locations().iter().map(|l| read_value(&segments, l)).collect();
    let compacted = index.compact_log(&values);
    let after = vec![Some(compacted), None];
    let mut rebuilt = Index::new();
    rebuilt.build(&after);
    assert_eq!(read_value(&after, rebuilt.get(b"a").unwrap()), b"3".to_vec());
    assert_eq!(read_value(&after, rebuilt.get(b"b").unwrap()), b"2".to_vec());
    assert_eq!(rebuilt.get(b"a").unwrap().2, 0);
    assert_eq!(rebuilt.locations().len(), 2);
}
