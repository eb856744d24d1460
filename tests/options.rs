use sysmon_convert::options::{ProcessingOptions, ProcessingOptionsBuilder};

#[test]
fn test_default_options() {
    let options = ProcessingOptions::default();
    assert_eq!(options.max_file_size, 10 * 1024 * 1024);
    assert_eq!(options.max_depth, 10);
    assert!(options.workers.is_none());
    assert!(options.ignore_patterns.is_none());
    assert!(!options.create_backup);
    assert!(options.verify_output);
    assert!(!options.silent);
    assert!(options.show_stats);
}

#[test]
fn test_builder_pattern() {
    let test_patterns = vec!["test".to_string(), "temp".to_string()];
    let options = ProcessingOptionsBuilder::new()
        .max_file_size(5 * 1024 * 1024)
        .max_depth(5)
        .workers(Some(4))
        .ignore_patterns(Some(test_patterns.clone()))
        .create_backup(true)
        .silent(true)
        .verify_output(false)
        .show_stats(false)
        .build();

    assert_eq!(options.max_file_size, 5 * 1024 * 1024);
    assert_eq!(options.max_depth, 5);
    assert_eq!(options.workers, Some(4));
    assert_eq!(options.ignore_patterns, Some(test_patterns));
    assert!(options.create_backup);
    assert!(options.silent);
    assert!(!options.verify_output);
    assert!(!options.show_stats);
}

#[test]
fn test_partial_builder_pattern() {
    let options = ProcessingOptionsBuilder::new()
        .max_file_size(20 * 1024 * 1024)
        .create_backup(true)
        .build();

    assert_eq!(options.max_file_size, 20 * 1024 * 1024);
    assert!(options.create_backup);
    assert_eq!(options.max_depth, 10);
    assert!(options.workers.is_none());
    assert!(options.ignore_patterns.is_none());
    assert!(options.verify_output);
    assert!(!options.silent);
    assert!(options.show_stats);
}

#[test]
fn default_builder_matches_default_options() {
    let built = ProcessingOptionsBuilder::default().build();
    let plain = ProcessingOptions::default();
    assert_eq!(built.max_file_size, plain.max_file_size);
    assert_eq!(built.max_depth, plain.max_depth);
    assert_eq!(built.show_stats, plain.show_stats);
}
