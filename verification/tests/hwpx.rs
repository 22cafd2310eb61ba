use mydoo_viewer::hwpx::{extract_text, local_name, parse_section, section_names, section_text, XmlEvent};

#[test]
fn local_name_strips_prefix() {
    assert_eq!(local_name(b"hp:t"), b"t");
    assert_eq!(local_name(b"t"), b"t");
    assert_eq!(local_name(b"a:b:c"), b"b:c");
    assert_eq!(local_name(b":x"), b"x");
    assert_eq!(local_name(b"p:"), b"");
    assert_eq!(local_name(b""), b"");
}

#[test]
fn parse_section_paragraphs_and_runs() {
    let xml = r#"<?xml version="1.0" encoding="UTF-8"?><hs:sec xmlns:hs="s" xmlns:hp="p"><hp:p><hp:run><hp:t>안녕하세요</hp:t></hp:run></hp:p><hp:p><hp:run><hp:t>A &amp; B</hp:t><hp:t> &lt;x&gt;</hp:t></hp:run><hp:linesegarray/></hp:p></hs:sec>"#;
    assert_eq!(parse_section(xml.as_bytes()), Ok("\n안녕하세요\nA & B <x>".to_string()));
}

#[test]
fn parse_section_ignores_text_outside_t() {
    let xml = "<sec><p>outside<run>also outside</run><t>inside</t>after</p></sec>";
    assert_eq!(parse_section(xml.as_bytes()), Ok("\ninside".to_string()));
}

#[test]
fn parse_section_nested_t_elements() {
    let xml = "<p><t>a<t>b</t>c</t>d</p>";
    assert_eq!(parse_section(xml.as_bytes()), Ok("\nabc".to_string()));
}

#[test]
fn parse_section_empty_elements_add_nothing() {
    let xml = "<sec><p/><t/><p><t>x</t></p></sec>";
    assert_eq!(parse_section(xml.as_bytes()), Ok("\nx".to_string()));
}

#[test]
fn parse_section_empty_document() {
    assert_eq!(parse_section(b""), Ok(String::new()));
}

#[test]
fn parse_section_reports_malformed_xml() {
    match parse_section(b"<sec><p><t>x</p></sec>") {
        Err(m) => assert!(m.starts_with("XML parse error: ")),
        Ok(t) => panic!("parsed: {:?}", t),
    }
}

#[test]
fn parse_section_reports_bad_escape_inside_t() {
    assert!(parse_section(b"<t>&bogus;</t>").is_err());
    assert_eq!(parse_section(b"<x>&bogus;</x>"), Ok(String::new()));
}

#[test]
fn section_text_from_events() {
    let events = vec![
        XmlEvent::Start(b"hp:p".to_vec()),
        XmlEvent::Start(b"hp:t".to_vec()),
        XmlEvent::Text(Ok("hello".to_string())),
        XmlEvent::End(b"hp:t".to_vec()),
        XmlEvent::Text(Ok("ignored".to_string())),
        XmlEvent::Other,
        XmlEvent::Eof,
        XmlEvent::Text(Ok("after end".to_string())),
    ];
    assert_eq!(section_text(&events), Ok("\nhello".to_string()));
}

#[test]
fn section_text_errors() {
    let events = vec![XmlEvent::Start(b"t".to_vec()), XmlEvent::Error("boom".to_string())];
    assert_eq!(section_text(&events), Err("XML parse error: boom".to_string()));
    let events = vec![XmlEvent::Start(b"t".to_vec()), XmlEvent::Text(Err("escape".to_string()))];
    assert_eq!(section_text(&events), Err("escape".to_string()));
    let events = vec![XmlEvent::Text(Err("escape".to_string())), XmlEvent::Eof];
    assert_eq!(section_text(&events), Ok(String::new()));
}

#[test]
fn section_text_unbalanced_end_keeps_depth_at_zero() {
    let events = vec![
        XmlEvent::End(b"t".to_vec()),
        XmlEvent::Start(b"t".to_vec()),
        XmlEvent::Text(Ok("x".to_string())),
        XmlEvent::End(b"t".to_vec()),
        XmlEvent::Text(Ok("y".to_string())),
    ];
    assert_eq!(section_text(&events), Ok("x".to_string()));
}

#[test]
fn section_names_filters_and_sorts() {
    let names: Vec<String> = [
        "Contents/section1.xml",
        "Contents/header.xml",
        "Contents/section0.xml",
        "Contents/section10.xml",
        "Preview/PrvText.txt",
        "Contents/section2.xml.bak",
    ]
    .iter()
    .map(|s| s.to_string())
    .collect();
    assert_eq!(
        section_names(&names),
        vec!["Contents/section0.xml", "Contents/section1.xml", "Contents/section10.xml"]
    );
}

#[test]
fn hwpx_extract_text_sections_in_order() {
    let s0 = b"<sec><p><t>one</t></p></sec>".to_vec();
    let s1 = b"<sec><p><t>two</t></p></sec>".to_vec();
    assert_eq!(extract_text(vec![Ok(s0), Ok(s1)]), Ok("\none\n\ntwo\n".to_string()));
}

#[test]
fn hwpx_extract_text_errors() {
    assert_eq!(
        extract_text(vec![]),
        Err("hwpx 안에 Contents/section*.xml이 없음".to_string())
    );
    assert_eq!(
        extract_text(vec![Ok(b"<t>a</t>".to_vec()), Err("zip".to_string())]),
        Err("zip".to_string())
    );
}

#[test]
fn prefixes_do_not_change_text() {
    let a = "<hs:sec><hp:p><hp:t>글</hp:t></hp:p></hs:sec>";
    let b = "<sec><x:p><t>글</t></x:p></sec>";
    assert_eq!(parse_section(a.as_bytes()), parse_section(b.as_bytes()));
}
