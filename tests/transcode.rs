use sysmon_convert::reader::{value_from_events, xml_to_value};
use sysmon_convert::markup::MarkupEvent;
use sysmon_convert::value::Value;
use sysmon_convert::writer::value_to_xml;
use sysmon_convert::ConversionError;

fn s(t: &str) -> Value {
    Value::String(t.to_string())
}

fn obj(entries: Vec<(&str, Value)>) -> Value {
    Value::Object(entries.into_iter().map(|(k, v)| (k.to_string(), v)).collect())
}

fn same(a: &Value, b: &Value) -> bool {
    match (a, b) {
        (Value::Null, Value::Null) => true,
        (Value::Bool(x), Value::Bool(y)) => x == y,
        (Value::Number(x), Value::Number(y)) => x == y,
        (Value::String(x), Value::String(y)) => x == y,
        (Value::Array(x), Value::Array(y)) => x.len() == y.len() && x.iter().zip(y).all(|(p, q)| same(p, q)),
        (Value::Object(x), Value::Object(y)) => {
            x.len() == y.len()
                && x.iter().all(|(k, v)| y.iter().any(|(k2, v2)| k == k2 && same(v, v2)))
        }
        _ => false,
    }
}

fn entry<'a>(v: &'a Value, key: &str) -> Option<&'a Value> {
    match v {
        Value::Object(es) => es.iter().find(|(k, _)| k == key).map(|(_, v)| v),
        _ => None,
    }
}

#[test]
fn test_simple_conversion() {
    let value = obj(vec![("@version", s("1.0")), ("$text", s("content"))]);
    let xml = value_to_xml(&value).unwrap();
    assert!(xml.contains("version=\"1.0\""));
    assert!(xml.contains(">content<"));
}

#[test]
fn writer_layout_of_object() {
    let value = obj(vec![
        ("child", obj(vec![("@a", s("1"))])),
        ("@x", s("y")),
        ("@n", Value::Number("3".to_string())),
        ("$text", s("t")),
    ]);
    assert_eq!(value_to_xml(&value).unwrap(), "<root x=\"y\">t<child a=\"1\"></child></root>");
}

#[test]
fn writer_unwraps_arrays_and_scalars() {
    let value = obj(vec![
        ("Image", Value::Array(vec![s("a.exe"), s("b.exe")])),
        ("flag", Value::Bool(true)),
        ("count", Value::Number("12".to_string())),
        ("none", Value::Null),
    ]);
    assert_eq!(
        value_to_xml(&value).unwrap(),
        "<root><Image>a.exe</Image><Image>b.exe</Image><flag>true</flag><count>12</count><none/></root>"
    );
}

#[test]
fn writer_emits_anonymous_children_as_root_elements() {
    let value = obj(vec![("$children", Value::Array(vec![obj(vec![("@k", s("v"))]), s("loose")]))]);
    assert_eq!(value_to_xml(&value).unwrap(), "<root><root k=\"v\"></root>loose</root>");
}

#[test]
fn writer_escapes_text_and_attributes() {
    let value = obj(vec![("@q", s("a<b&\"c")), ("$text", s("x<y"))]);
    let xml = value_to_xml(&value).unwrap();
    assert!(xml.contains("q=\"a&lt;b&amp;&quot;c\""));
    assert!(xml.contains(">x&lt;y<"));
}

#[test]
fn bare_scalar_is_written_as_text() {
    assert_eq!(value_to_xml(&s("plain")).unwrap(), "plain");
    assert_eq!(value_to_xml(&Value::Null).unwrap(), "");
}

#[test]
fn reader_builds_nested_objects() {
    let v = xml_to_value("<root><test>value</test></root>").unwrap();
    let expected = obj(vec![("root", obj(vec![("test", obj(vec![("$text", s("value"))]))]))]);
    assert!(same(&v, &expected), "{:?}", v);
}

#[test]
fn reader_keeps_attributes_text_and_children() {
    let xml = r#"<Sysmon schemaversion="4.30"> hello <EventFiltering><RuleGroup name="g"/></EventFiltering></Sysmon>"#;
    let v = xml_to_value(xml).unwrap();
    let root = entry(&v, "Sysmon").unwrap();
    assert!(same(entry(root, "@schemaversion").unwrap(), &s("4.30")));
    assert!(same(entry(root, "$text").unwrap(), &s("hello")));
    let ef = entry(root, "EventFiltering").unwrap();
    assert!(same(entry(ef, "RuleGroup").unwrap(), &obj(vec![("@name", s("g"))])));
}

#[test]
fn reader_later_sibling_with_same_tag_replaces_earlier() {
    let v = xml_to_value("<a><b>1</b><b>2</b></a>").unwrap();
    let expected = obj(vec![("a", obj(vec![("b", obj(vec![("$text", s("2"))]))]))]);
    assert!(same(&v, &expected), "{:?}", v);
}

#[test]
fn whitespace_only_text_is_not_stored() {
    let v = xml_to_value("<a>  \n\t <b> x </b>   </a>").unwrap();
    let a = entry(&v, "a").unwrap();
    assert!(entry(a, "$text").is_none());
    let b = entry(a, "b").unwrap();
    assert!(same(entry(b, "$text").unwrap(), &s("x")));
}

#[test]
fn reader_tolerates_truncated_input() {
    let v = xml_to_value("<a x=\"1\"><b>t").unwrap();
    let expected = obj(vec![("a", obj(vec![("@x", s("1")), ("b", obj(vec![("$text", s("t"))]))]))]);
    assert!(same(&v, &expected), "{:?}", v);
}

#[test]
fn reader_of_empty_document_gives_null() {
    assert!(matches!(xml_to_value("").unwrap(), Value::Null));
    assert!(matches!(xml_to_value("   ").unwrap(), Value::Null));
}

#[test]
fn reader_returns_leading_text() {
    assert!(same(&xml_to_value("  just text  ").unwrap(), &s("just text")));
}

#[test]
fn reader_rejects_mismatched_tags() {
    assert!(matches!(xml_to_value("<a></b>"), Err(ConversionError::XmlParse(_))));
}

#[test]
fn reader_unescapes_text_and_attributes() {
    let v = xml_to_value("<a q=\"1 &lt; 2\">x &amp; y</a>").unwrap();
    let a = entry(&v, "a").unwrap();
    assert!(same(entry(a, "@q").unwrap(), &s("1 < 2")));
    assert!(same(entry(a, "$text").unwrap(), &s("x & y")));
}

#[test]
fn round_trip_through_markup() {
    let v = obj(vec![
        ("$text", s("body")),
        ("Inner", obj(vec![("@k", s("v")), ("Leaf", obj(vec![("$text", s("z"))]))])),
        ("@id", s("7")),
        ("Empty", obj(vec![])),
    ]);
    let xml = value_to_xml(&v).unwrap();
    let back = xml_to_value(&xml).unwrap();
    assert!(same(&back, &obj(vec![("root", v)])), "{:?}", back);
}

#[test]
fn attribute_round_trips_verbatim() {
    let v = obj(vec![("@key", s("a<b&\"c'd"))]);
    let xml = value_to_xml(&v).unwrap();
    assert!(xml.contains("key=\"a&lt;b&amp;&quot;c&apos;d\""));
    let back = xml_to_value(&xml).unwrap();
    let root = entry(&back, "root").unwrap();
    assert!(same(entry(root, "@key").unwrap(), &s("a<b&\"c'd")));
}

#[test]
fn events_are_read_like_text() {
    let events = vec![
        MarkupEvent::Start("r".to_string(), vec![("a".to_string(), "1".to_string())]),
        MarkupEvent::Text("  hi ".to_string()),
        MarkupEvent::Markup("<!-- note -->".to_string()),
        MarkupEvent::End("r".to_string()),
        MarkupEvent::Start("ignored".to_string(), vec![]),
    ];
    let v = value_from_events(events).unwrap();
    assert!(same(&v, &obj(vec![("r", obj(vec![("@a", s("1")), ("$text", s("hi"))]))])));
    assert!(value_from_events(vec![]).is_none());
    assert!(value_from_events(vec![MarkupEvent::Text("   ".to_string())]).is_none());
}

#[test]
fn duplicate_copies_deeply() {
    let v = obj(vec![("a", Value::Array(vec![s("x"), Value::Bool(false)]))]);
    assert!(same(&v.duplicate(), &v));
}
