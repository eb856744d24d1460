use sysmon_convert::markup::MarkupEvent;
use sysmon_convert::merger::{accept_merged, merged_markup, output_format, ConfigMerger, OutputFormat, SchemaVerdict};
use sysmon_convert::value::Value;
use sysmon_convert::ConversionError;

fn s(t: &str) -> Value {
    Value::String(t.to_string())
}

fn obj(entries: Vec<(&str, Value)>) -> Value {
    Value::Object(entries.into_iter().map(|(k, v)| (k.to_string(), v)).collect())
}

fn entry<'a>(v: &'a Value, key: &str) -> Option<&'a Value> {
    match v {
        Value::Object(es) => es.iter().find(|(k, _)| k == key).map(|(_, v)| v),
        _ => None,
    }
}

fn text_of(v: &Value) -> &str {
    match v {
        Value::String(t) => t,
        other => panic!("not a string: {:?}", other),
    }
}

fn structured_doc(version: &str, name: &str, image: &str) -> Value {
    obj(vec![
        ("@schemaversion", s(version)),
        (
            "EventFiltering",
            obj(vec![(
                "RuleGroup",
                obj(vec![
                    ("@name", s(name)),
                    ("@groupRelation", s("or")),
                    (
                        "ProcessCreate",
                        obj(vec![
                            ("@onmatch", s("include")),
                            ("Image", obj(vec![("@condition", s("is")), ("$text", s(image))])),
                        ]),
                    ),
                ]),
            )]),
        ),
    ])
}

fn markup_doc(version: &str, name: &str, image: &str) -> String {
    format!(
        r#"<?xml version="1.0" encoding="UTF-8"?>
        <Sysmon schemaversion="{}">
            <EventFiltering>
                <RuleGroup name="{}" groupRelation="or">
                    <ProcessCreate onmatch="include">
                        <Image condition="is">{}</Image>
                    </ProcessCreate>
                </RuleGroup>
            </EventFiltering>
        </Sysmon>"#,
        version, name, image
    )
}

fn images(merged: &Value) -> Vec<String> {
    let group = entry(entry(merged, "EventFiltering").unwrap(), "RuleGroup").unwrap();
    let pc = entry(group, "ProcessCreate").unwrap();
    match entry(pc, "Image").unwrap() {
        Value::Array(items) => items.iter().map(|i| text_of(entry(i, "$text").unwrap()).to_string()).collect(),
        other => panic!("not a list: {:?}", other),
    }
}

#[test]
fn merging_two_structured_documents_keeps_both_images_in_order() {
    let mut m = ConfigMerger::new();
    m.process_json_value(structured_doc("4.30", "test1", "A.exe")).unwrap();
    m.process_json_value(structured_doc("4.30", "test2", "B.exe")).unwrap();
    assert_eq!(m.current_rules_count(), 2);
    assert_eq!(m.processed_files_count(), 2);
    let merged = m.build_merged_config();
    assert_eq!(images(&merged), vec!["A.exe".to_string(), "B.exe".to_string()]);
    let group = entry(entry(&merged, "EventFiltering").unwrap(), "RuleGroup").unwrap();
    assert_eq!(text_of(entry(group, "@name").unwrap()), "MergedRules");
    assert_eq!(text_of(entry(group, "@groupRelation").unwrap()), "or");
    let pc = entry(group, "ProcessCreate").unwrap();
    assert_eq!(text_of(entry(pc, "@onmatch").unwrap()), "include");
}

#[test]
fn merging_two_markup_documents_keeps_both_images_in_order() {
    let mut m = ConfigMerger::new();
    let first = markup_doc("4.30", "test1", r"C:\Windows\System32\test1.exe");
    let second = markup_doc("4.30", "test2", r"C:\Windows\System32\test2.exe");
    m.process_xml_file("config1.xml".to_string(), &first, SchemaVerdict::Accepted).unwrap();
    m.process_xml_file("config2.xml".to_string(), &second, SchemaVerdict::Accepted).unwrap();
    assert_eq!(m.last_processed_file().map(|p| p.as_str()), Some("config2.xml"));
    let merged = m.build_merged_config();
    assert_eq!(
        images(&merged),
        vec![r"C:\Windows\System32\test1.exe".to_string(), r"C:\Windows\System32\test2.exe".to_string()]
    );
    let xml = merged_markup(&merged);
    assert!(xml.starts_with("<?xml version=\"1.0\" encoding=\"UTF-8\"?><Sysmon schemaversion=\"4.30\">"));
    assert!(xml.contains("test1.exe"));
    assert!(xml.contains("test2.exe"));
    assert!(xml.contains("MergedRules"));
}

#[test]
fn merging_mixed_documents() {
    let mut m = ConfigMerger::new();
    m.process_xml_file("config1.xml".to_string(), &markup_doc("4.30", "test1", "test1.exe"), SchemaVerdict::Accepted)
        .unwrap();
    m.process_json_value(structured_doc("4.30", "test2", "test2.exe")).unwrap();
    let merged = m.build_merged_config();
    assert_eq!(images(&merged), vec!["test1.exe".to_string(), "test2.exe".to_string()]);
}

#[test]
fn a_markup_group_with_two_event_types_gives_two_records() {
    let xml = r#"<Sysmon schemaversion="4.50"><EventFiltering><RuleGroup name="g" groupRelation="and">
        <ProcessCreate onmatch="include"><Image condition="is">x.exe</Image></ProcessCreate>
        <NetworkConnect onmatch="exclude"><DestinationPort condition="is">80</DestinationPort></NetworkConnect>
        </RuleGroup></EventFiltering></Sysmon>"#;
    let mut m = ConfigMerger::new();
    m.process_xml_file("c.xml".to_string(), xml, SchemaVerdict::Accepted).unwrap();
    assert_eq!(m.current_rules_count(), 2);
    let merged = m.build_merged_config();
    assert_eq!(images(&merged), vec!["x.exe".to_string()]);
    assert_eq!(text_of(entry(&merged, "@schemaversion").unwrap()), "4.50");
}

#[test]
fn first_schema_version_wins() {
    let mut m = ConfigMerger::new();
    m.process_json_value(structured_doc("4.22", "a", "a.exe")).unwrap();
    m.process_xml_file("b.xml".to_string(), &markup_doc("4.90", "b", "b.exe"), SchemaVerdict::Accepted).unwrap();
    m.process_json_value(structured_doc("4.91", "c", "c.exe")).unwrap();
    assert_eq!(m.schema_version().map(|v| v.as_str()), Some("4.22"));
    let merged = m.build_merged_config();
    assert_eq!(text_of(entry(&merged, "@schemaversion").unwrap()), "4.22");

    let mut m = ConfigMerger::new();
    m.process_xml_file("b.xml".to_string(), &markup_doc("4.90", "b", "b.exe"), SchemaVerdict::Accepted).unwrap();
    m.process_json_value(structured_doc("4.22", "a", "a.exe")).unwrap();
    assert_eq!(text_of(entry(&m.build_merged_config(), "@schemaversion").unwrap()), "4.90");
}

#[test]
fn merging_nothing_gives_only_a_version() {
    let m = ConfigMerger::new();
    let merged = m.build_merged_config();
    match &merged {
        Value::Object(es) => {
            assert_eq!(es.len(), 1);
            assert_eq!(es[0].0, "@schemaversion");
            assert_eq!(text_of(&es[0].1), "4.30");
        }
        other => panic!("not an object: {:?}", other),
    }
    assert_eq!(merged_markup(&merged), "<?xml version=\"1.0\" encoding=\"UTF-8\"?><Sysmon schemaversion=\"4.30\"></Sysmon>");
}

#[test]
fn merging_without_process_rules_gives_no_event_filtering() {
    let doc = obj(vec![(
        "EventFiltering",
        obj(vec![("RuleGroup", obj(vec![("NetworkConnect", obj(vec![("@onmatch", s("include"))]))]))]),
    )]);
    let mut m = ConfigMerger::new();
    m.process_json_value(doc).unwrap();
    assert_eq!(m.current_rules_count(), 1);
    let merged = m.build_merged_config();
    assert!(entry(&merged, "EventFiltering").is_none());
    assert!(entry(&merged, "@schemaversion").is_some());
}

#[test]
fn structured_list_of_groups_is_taken_item_by_item() {
    let groups = Value::Array(vec![
        obj(vec![("ProcessCreate", obj(vec![("Image", s("one.exe"))]))]),
        obj(vec![("ProcessCreate", obj(vec![("Image", s("two.exe"))]))]),
    ]);
    let doc = obj(vec![("EventFiltering", obj(vec![("RuleGroup", groups)]))]);
    let mut m = ConfigMerger::new();
    m.process_json_value(doc).unwrap();
    assert_eq!(m.current_rules_count(), 2);
    let merged = m.build_merged_config();
    let group = entry(entry(&merged, "EventFiltering").unwrap(), "RuleGroup").unwrap();
    match entry(entry(group, "ProcessCreate").unwrap(), "Image").unwrap() {
        Value::Array(items) => {
            assert_eq!(items.len(), 2);
            assert_eq!(text_of(&items[0]), "one.exe");
            assert_eq!(text_of(&items[1]), "two.exe");
        }
        other => panic!("not a list: {:?}", other),
    }
}

#[test]
fn structured_document_must_be_an_object() {
    let mut m = ConfigMerger::new();
    let r = m.process_json_value(Value::Array(vec![]));
    assert!(matches!(r, Err(ConversionError::InvalidFile(_))));
    assert_eq!(m.processed_files_count(), 0);
}

#[test]
fn rejected_markup_documents_surface_the_check_error() {
    let mut m = ConfigMerger::new();
    let doc = markup_doc("4.30", "test1", "test1.exe");
    let r = m.process_xml_file("bad.xml".to_string(), &doc, SchemaVerdict::Invalid("invalid onmatch".to_string()));
    match r {
        Err(ConversionError::ValidationError(msg)) => assert_eq!(msg, "Validation error in bad.xml: invalid onmatch"),
        other => panic!("expected a validation error, got {:?}", other),
    }
    let r = m.process_xml_file("worse.xml".to_string(), &doc, SchemaVerdict::Unparsable("broken".to_string()));
    match r {
        Err(ConversionError::ParserError(msg)) => assert_eq!(msg, "Parse error in worse.xml: broken"),
        other => panic!("expected a parse error, got {:?}", other),
    }
    assert_eq!(m.current_rules_count(), 0);
    assert_eq!(m.processed_files_count(), 0);
    assert_eq!(m.last_processed_file().map(|p| p.as_str()), Some("worse.xml"));
}

#[test]
fn unreadable_markup_is_an_xml_error() {
    let mut m = ConfigMerger::new();
    let r = m.process_xml_file("x.xml".to_string(), "<Sysmon></Other>", SchemaVerdict::Accepted);
    assert!(matches!(r, Err(ConversionError::XmlParse(_))));
    assert_eq!(m.processed_files_count(), 0);
}

#[test]
fn failed_post_merge_validation_is_a_validation_error() {
    let merged = ConfigMerger::new().build_merged_config();
    let r = accept_merged(merged, SchemaVerdict::Invalid("bad onmatch".to_string()));
    assert!(matches!(r, Err(ConversionError::ValidationError(_))));
    let merged = ConfigMerger::new().build_merged_config();
    let r = accept_merged(merged, SchemaVerdict::Unparsable("bad".to_string()));
    assert!(matches!(r, Err(ConversionError::ValidationError(_))));
    let merged = ConfigMerger::new().build_merged_config();
    assert!(accept_merged(merged, SchemaVerdict::Accepted).is_ok());
}

#[test]
fn output_extension_selects_the_form() {
    assert_eq!(output_format(Some("xml")).unwrap(), OutputFormat::Markup);
    assert_eq!(output_format(Some("json")).unwrap(), OutputFormat::Structured);
    assert!(matches!(output_format(Some("txt")), Err(ConversionError::InvalidFile(_))));
    assert!(matches!(output_format(None), Err(ConversionError::InvalidFile(_))));
}

#[test]
fn merged_markup_skips_anonymous_children() {
    let image = obj(vec![
        ("@condition", s("is")),
        ("$text", s("x.exe")),
        ("$children", Value::Array(vec![s("stray")])),
    ]);
    let doc = obj(vec![(
        "EventFiltering",
        obj(vec![("RuleGroup", obj(vec![("ProcessCreate", obj(vec![("Image", image)]))]))]),
    )]);
    let mut m = ConfigMerger::new();
    m.process_json_value(doc).unwrap();
    let xml = merged_markup(&m.build_merged_config());
    assert!(xml.contains("<Image condition=\"is\">x.exe</Image>"));
    assert!(!xml.contains("stray"));
}

#[test]
fn malformed_attributes_are_an_xml_error() {
    let mut m = ConfigMerger::new();
    let r = m.process_xml_file("x.xml".to_string(), "<Sysmon a=\"1\" a=\"2\"></Sysmon>", SchemaVerdict::Accepted);
    assert!(matches!(r, Err(ConversionError::XmlParse(_))));
}

#[test]
fn markup_events_are_ingested_like_text() {
    let ev = |n: &str, a: Vec<(&str, &str)>| {
        MarkupEvent::Start(n.to_string(), a.into_iter().map(|(k, v)| (k.to_string(), v.to_string())).collect())
    };
    let end = |n: &str| MarkupEvent::End(n.to_string());
    let events = vec![
        ev("Sysmon", vec![("schemaversion", "4.60")]),
        ev("EventFiltering", vec![]),
        ev("RuleGroup", vec![("name", "g")]),
        ev("ProcessCreate", vec![("onmatch", "include")]),
        ev("Image", vec![("condition", "is")]),
        MarkupEvent::Text(" e.exe ".to_string()),
        end("Image"),
        end("ProcessCreate"),
        end("RuleGroup"),
        end("EventFiltering"),
        end("Sysmon"),
    ];
    let mut m = ConfigMerger::new();
    m.process_markup_events("e.xml".to_string(), events, SchemaVerdict::Accepted).unwrap();
    assert_eq!(m.processed_files_count(), 1);
    let merged = m.build_merged_config();
    assert_eq!(images(&merged), vec!["e.exe".to_string()]);
    assert_eq!(text_of(entry(&merged, "@schemaversion").unwrap()), "4.60");
}

#[test]
fn io_error_keeps_path_and_cause() {
    match ConversionError::io_error("a.xml".to_string(), "denied".to_string()) {
        ConversionError::Io { path, source } => {
            assert_eq!(path, "a.xml");
            assert_eq!(source, "denied");
        }
        other => panic!("unexpected {:?}", other),
    }
}
