use sysmon_convert::path::{is_path_attribute, is_path_element, normalize_path, process_xml_content};

#[test]
fn test_path_normalization() {
    assert_eq!(
        normalize_path(r"c:\windows\system32").unwrap(),
        r"C:\windows\system32"
    );
    assert_eq!(
        normalize_path(r"\\server\share").unwrap(),
        r"\\server\share"
    );
    assert_eq!(
        normalize_path(r"c:/windows/system32").unwrap(),
        r"C:\windows\system32"
    );
    assert_eq!(
        normalize_path("relative/path").unwrap(),
        "relative/path"
    );
}

#[test]
fn unc_path_gets_backslashes() {
    assert_eq!(normalize_path("\\\\server/share/dir").unwrap(), "\\\\server\\share\\dir");
}

#[test]
fn drive_path_loses_trailing_backslashes_and_surrounding_space() {
    assert_eq!(normalize_path("  d:/tools/\\\\ ").unwrap(), "D:\\tools");
    assert_eq!(normalize_path("C:").unwrap(), "C:");
}

#[test]
fn path_attributes_and_path_like_text() {
    assert!(is_path_attribute("Image"));
    assert!(is_path_attribute("ImageLoaded"));
    assert!(is_path_attribute("TargetFilename"));
    assert!(!is_path_attribute("image"));
    assert!(!is_path_attribute("CommandLine"));
    assert!(is_path_element("c:"));
    assert!(is_path_element("a\\b"));
    assert!(!is_path_element("relative/path"));
}

#[test]
fn preprocessing_normalizes_path_text() {
    let test_xml = r#"
        <Sysmon schemaversion="4.30">
            <EventFiltering>
                <RuleGroup name="test">
                    <ProcessCreate onmatch="include">
                        <Image condition="is">c:/windows/system32/cmd.exe</Image>
                        <CommandLine condition="contains">test</CommandLine>
                    </ProcessCreate>
                </RuleGroup>
            </EventFiltering>
        </Sysmon>"#;
    let processed = process_xml_content(test_xml).unwrap();
    assert!(processed.contains(r"C:\windows\system32\cmd.exe"));
    assert!(processed.contains("<CommandLine condition=\"contains\">test</CommandLine>"));
    assert!(processed.starts_with("<Sysmon schemaversion=\"4.30\"><EventFiltering>"));
}

#[test]
fn preprocessing_normalizes_path_attributes_and_drops_comments() {
    let xml = r#"<Rule TargetFilename="e:/data/" Other="x/y"><!-- note --></Rule>"#;
    let processed = process_xml_content(xml).unwrap();
    assert_eq!(processed, r#"<Rule TargetFilename="E:\data" Other="x/y"></Rule>"#);
}

#[test]
fn preprocessing_keeps_other_markup() {
    let xml = "<?xml version=\"1.0\" encoding=\"UTF-8\"?><!DOCTYPE Sysmon><Sysmon><?tool run?><Note><![CDATA[a < b & c:/x]]></Note></Sysmon>";
    let processed = process_xml_content(xml).unwrap();
    assert_eq!(processed, xml);
}

#[test]
fn preprocessing_keeps_self_closing_elements() {
    let xml = r#"<Rules><Image condition="is" note="c:/x"/></Rules>"#;
    assert_eq!(process_xml_content(xml).unwrap(), xml);
}
