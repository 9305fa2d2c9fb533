use basic_db::index::Index;
use basic_db::protocol::{
    complete_set, plan_compaction, response_for, Outcome,
    build_request, error_response, handle_request, not_found_response, ok_response, parse_request,
    parse_response, value_response, Action, Request,
};

#[test]
fn responses() {
    assert_eq!(error_response(), vec![0xFF, 0, 0, 0, 0]);
    assert_eq!(not_found_response(), vec![0x01, 0, 0, 0, 0]);
    assert_eq!(ok_response(), vec![0x00, 0, 0, 0, 0]);
    assert_eq!(value_response(b"hey"), vec![0x00, 0, 0, 0, 3, b'h', b'e', b'y']);
    assert_eq!(value_response(b""), vec![0x00, 0, 0, 0, 0]);
}

#[test]
fn build_requests() {
    assert_eq!(
        build_request("SET", "ab", Some("xyz")),
        vec![2, 0, 0, 0, 2, b'a', b'b', 0, 0, 0, 3, b'x', b'y', b'z']
    );
    assert_eq!(build_request("GET", "ab", None), vec![1, 0, 0, 0, 2, b'a', b'b', 0, 0, 0, 0]);
    assert_eq!(build_request("GET", "ab", Some("ignored")), vec![1, 0, 0, 0, 2, b'a', b'b', 0, 0, 0, 0]);
    assert_eq!(build_request("COMPACT", "whatever", None), vec![3, 0, 0, 0, 0, 0, 0, 0, 0]);
    assert_eq!(build_request("DELETE", "k", None), Vec::<u8>::new());
    assert_eq!(build_request("set", "k", Some("v")), Vec::<u8>::new());
}

#[test]
fn parse_requests() {
    match parse_request(&build_request("SET", "key", Some("value"))) {
        Request::Put { key, value } => {
            assert_eq!(key, b"key".to_vec());
            assert_eq!(value, b"value".to_vec());
        }
        _ => panic!("expected a SET"),
    }
    match parse_request(&build_request("GET", "key", None)) {
        Request::Get { key } => assert_eq!(key, b"key".to_vec()),
        _ => panic!("expected a GET"),
    }
    assert!(matches!(parse_request(&build_request("COMPACT", "", None)), Request::Compact));
    assert!(matches!(parse_request(&[]), Request::Invalid));
    assert!(matches!(parse_request(&[1, 0, 0]), Request::LengthCut));
    assert!(matches!(parse_request(&[1]), Request::LengthCut));
    assert!(matches!(parse_request(&[1, 0, 0, 0, 3, b'a']), Request::Invalid));
    assert!(matches!(parse_request(&[9, 0, 0, 0, 0]), Request::Invalid));
    assert!(matches!(parse_request(&[2, 0, 0, 0, 1, b'k', 0, 0]), Request::LengthCut));
    assert!(matches!(parse_request(&[2, 0, 0, 0, 1, b'k']), Request::LengthCut));
    assert!(matches!(parse_request(&[7, 0, 0]), Request::LengthCut));
    assert!(matches!(parse_request(&[2, 0, 0, 0, 1, b'k', 0, 0, 0, 2, b'v']), Request::Invalid));
    // a GET needs no value length
    assert!(matches!(parse_request(&[1, 0, 0, 0, 1, b'k']), Request::Get { .. }));
}

#[test]
fn handle_requests() {
    let mut index = Index::new();
    index.insert(b"k".to_vec(), 13, 4, 2);
    match handle_request(&index, &build_request("GET", "k", None)) {
        Action::ReadValue(loc) => assert_eq!(loc, (13, 4, 2)),
        _ => panic!("expected a read"),
    }
    match handle_request(&index, &build_request("GET", "missing", None)) {
        Action::Respond(bytes) => assert_eq!(bytes, vec![0x01, 0, 0, 0, 0]),
        _ => panic!("expected not found"),
    }
    match handle_request(&index, &build_request("SET", "k2", Some("v2"))) {
        Action::Write(key, value) => {
            assert_eq!(key, b"k2".to_vec());
            assert_eq!(value, b"v2".to_vec());
        }
        _ => panic!("expected a write"),
    }
    assert!(matches!(handle_request(&index, &build_request("COMPACT", "", None)), Action::Compact));
    match handle_request(&index, &[0x07, 0, 0, 0, 0]) {
        Action::Respond(bytes) => assert_eq!(bytes, vec![0xFF, 0, 0, 0, 0]),
        _ => panic!("expected an error"),
    }
    match handle_request(&index, &[]) {
        Action::Respond(bytes) => assert_eq!(bytes, vec![0xFF, 0, 0, 0, 0]),
        _ => panic!("expected an error"),
    }
    match handle_request(&index, &[0x01, 0, 0, 0, 3, b'a']) {
        Action::Respond(bytes) => assert_eq!(bytes, vec![0xFF, 0, 0, 0, 0]),
        _ => panic!("expected an error"),
    }
    assert!(matches!(handle_request(&index, &[0x01, 0, 0]), Action::Fail));
    assert!(matches!(handle_request(&index, &[0x02, 0, 0, 0, 1, b'k', 0]), Action::Fail));
}

#[test]
fn parse_responses() {
    assert_eq!(parse_response(&value_response(b"abc")), Some((0, b"abc".to_vec())));
    assert_eq!(parse_response(&not_found_response()), Some((1, vec![])));
    assert_eq!(parse_response(&error_response()), Some((0xFF, vec![])));
    assert_eq!(parse_response(&[0, 0, 0, 0, 2, b'a']), None);
    assert_eq!(parse_response(&[0, 0, 0]), None);
}

#[test]
fn complete_set_records_location_and_answers_ok() {
    let mut index = Index::new();
    let mut w = basic_db::writer::LogWriter::new(4, 100);
    let (response, sync) = complete_set(&mut index, &mut w, b"key".to_vec(), 60, 7);
    assert_eq!(response, vec![0, 0, 0, 0, 0]);
    assert!(!sync);
    assert_eq!(index.get(b"key"), Some(&(60, 7, 4)));
}

#[test]
fn responses_for_outcomes() {
    assert_eq!(response_for(Outcome::Respond(vec![1, 0, 0, 0, 0])), vec![1, 0, 0, 0, 0]);
    assert_eq!(response_for(Outcome::ValueRead(b"ab".to_vec())), vec![0, 0, 0, 0, 2, b'a', b'b']);
    assert_eq!(response_for(Outcome::Done), vec![0, 0, 0, 0, 0]);
    assert_eq!(response_for(Outcome::Failed), vec![0xFF, 0, 0, 0, 0]);
}

#[test]
fn plan_compaction_lists_segments_to_remove() {
    let mut index = Index::new();
    index.insert(b"k".to_vec(), 9, 1, 2);
    let (bytes, remove) = plan_compaction(&index, &vec![b"v".to_vec()], 3);
    assert_eq!(bytes, basic_db::record::encode_record(b"k", b"v"));
    assert_eq!(remove, vec![1, 2, 3]);
    let (_, none) = plan_compaction(&index, &vec![b"v".to_vec()], 0);
    assert!(none.is_empty());
}
