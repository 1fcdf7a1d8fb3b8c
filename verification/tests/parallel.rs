use xwc::worker_count;

#[test]
fn defaults_to_serial_until_parallel_file_threshold() {
    let paths = vec!["a".to_owned(), "b".to_owned(), "c".to_owned()];

    assert_eq!(worker_count(&paths, None, Some(8)), None);
}

#[test]
fn defaults_to_parallel_after_parallel_file_threshold() {
    let paths = vec![
        "a".to_owned(),
        "b".to_owned(),
        "c".to_owned(),
        "d".to_owned(),
    ];

    assert!(worker_count(&paths, None, Some(8)).is_some());
}

#[test]
fn explicit_jobs_overrides_parallel_file_threshold() {
    let paths = vec!["a".to_owned(), "b".to_owned()];

    assert_eq!(worker_count(&paths, Some(2), Some(8)), Some(2));
}
