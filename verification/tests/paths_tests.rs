use basic_db::paths::{get_compact_log_path, get_highest_segment_number, get_log_path, segment_number_of, BASE_LOG_NAME};

#[test]
fn log_paths() {
    assert_eq!(get_log_path(&0), "basicdb0.log");
    assert_eq!(get_log_path(&7), "basicdb7.log");
    assert_eq!(get_log_path(&1234), "basicdb1234.log");
    assert_eq!(get_log_path(&u32::MAX), "basicdb4294967295.log");
    assert_eq!(get_compact_log_path(), "basicdb_compact.log");
    assert_eq!(BASE_LOG_NAME, "basicdb");
}

#[test]
fn segment_numbers_of_names() {
    assert_eq!(segment_number_of("basicdb12.log"), Some(12));
    assert_eq!(segment_number_of("basicdb+5.log"), Some(5));
    assert_eq!(segment_number_of("basicdb007.log"), Some(7));
    assert_eq!(segment_number_of("basicdb4294967295.log"), Some(u32::MAX));
    assert_eq!(segment_number_of("basicdb4294967296.log"), None);
    assert_eq!(segment_number_of("basicdb.log"), None);
    assert_eq!(segment_number_of("basicdb-1.log"), None);
    assert_eq!(segment_number_of("basicdb+.log"), None);
    assert_eq!(segment_number_of("basicdb1x.log"), None);
    assert_eq!(segment_number_of("basicdb_compact.log"), None);
    assert_eq!(segment_number_of("basicdb3.txt"), None);
    assert_eq!(segment_number_of("other3.log"), None);
    assert_eq!(segment_number_of("basicd"), None);
    assert_eq!(segment_number_of(""), None);
}

#[test]
fn log_path_round_trips_through_scan() {
    for n in [0u32, 1, 9, 10, 99, 100, 65535, u32::MAX] {
        assert_eq!(segment_number_of(&get_log_path(&n)), Some(n));
    }
}

#[test]
fn highest_segment_number_of_listing() {
    let names: Vec<String> = vec![
        "basicdb2.log".to_string(),
        "notes.txt".to_string(),
        "basicdb10.log".to_string(),
        "basicdb_compact.log".to_string(),
        "basicdb3.log".to_string(),
    ];
    assert_eq!(get_highest_segment_number(&names), 10);
    assert_eq!(get_highest_segment_number(&vec![]), 0);
    assert_eq!(get_highest_segment_number(&vec!["x".to_string()]), 0);
}
