use sysmon_convert::batch::{plan_file, BatchProcessingStats, FilePlan};
use sysmon_convert::convert::{counterpart_extension, get_converter, Direction, JsonToXml, XmlToJson};
use sysmon_convert::options::ProcessingOptionsBuilder;
use sysmon_convert::progress::ProgressReporter;
use sysmon_convert::ConversionError;

#[test]
fn oversized_input_is_refused_and_not_counted() {
    let options = ProcessingOptionsBuilder::new()
        .max_file_size(100)
        .ignore_patterns(Some(vec!["big".to_string()]))
        .build();
    let plan = plan_file(Some(101), Some("big.xml"), Some("xml"), &options);
    assert_eq!(plan, FilePlan::TooLarge);
    let mut stats = BatchProcessingStats::new();
    stats.record(plan, true);
    assert_eq!(stats.processed, 0);
    assert_eq!(stats.errors, 1);
}

#[test]
fn plans_for_ordinary_files() {
    let options = ProcessingOptionsBuilder::new()
        .max_file_size(100)
        .ignore_patterns(Some(vec!["temp".to_string()]))
        .build();
    assert_eq!(plan_file(Some(100), Some("a.xml"), Some("xml"), &options), FilePlan::Convert { to_markup: false });
    assert_eq!(plan_file(None, Some("a.json"), Some("json"), &options), FilePlan::Convert { to_markup: true });
    assert_eq!(plan_file(Some(5), Some("my_temp.xml"), Some("xml"), &options), FilePlan::Ignored);
    assert_eq!(plan_file(Some(5), None, None, &options), FilePlan::MissingName);
}

#[test]
fn tally_counts_outcomes() {
    let mut stats = BatchProcessingStats::new();
    stats.record(FilePlan::Ignored, false);
    stats.record(FilePlan::Convert { to_markup: true }, true);
    stats.record(FilePlan::Convert { to_markup: false }, false);
    stats.record(FilePlan::MissingName, true);
    assert_eq!(stats.processed, 2);
    assert_eq!(stats.errors, 2);
}

#[test]
fn converter_follows_extensions() {
    assert_eq!(get_converter(Some("xml"), Some("json")).unwrap(), Direction::MarkupToStructured);
    assert_eq!(get_converter(Some("JSON"), Some("Xml")).unwrap(), Direction::StructuredToMarkup);
    assert!(matches!(get_converter(Some("xml"), Some("xml")), Err(ConversionError::InvalidFile(_))));
    assert!(matches!(get_converter(None, Some("xml")), Err(ConversionError::InvalidFile(_))));
    match get_converter(Some("txt"), Some("xml")) {
        Err(ConversionError::InvalidFile(msg)) => assert_eq!(msg, "Unsupported conversion: txt to xml"),
        other => panic!("unexpected {:?}", other),
    }
    let _ = XmlToJson::new();
    let _ = JsonToXml::new();
}

#[test]
fn folder_conversion_targets() {
    assert_eq!(counterpart_extension(Some("XML")), Some("json"));
    assert_eq!(counterpart_extension(Some("json")), Some("xml"));
    assert_eq!(counterpart_extension(Some("txt")), None);
    assert_eq!(counterpart_extension(None), None);
}

#[test]
fn progress_reporter_counts() {
    let p = ProgressReporter::new(3);
    assert_eq!(p.total(), 3);
    assert_eq!(p.processed(), 0);
    p.increment();
    p.increment();
    assert_eq!(p.processed(), 2);
    let counter = p.get_counter();
    counter.fetch_add(1, std::sync::atomic::Ordering::SeqCst);
    assert_eq!(p.processed(), 3);
    let _ = p.elapsed();
}
