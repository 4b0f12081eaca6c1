use lenient_xml::XmlParser;

#[test]
fn test_simple_element() {
    let text = "<a/>";
    let xml = XmlParser::new(text).parse();
    assert_eq!(xml.offset(), 0);
    assert_eq!(xml.tag_name(), Some("a"));
}

#[test]
fn test_attributes() {
    let text = r#"<a b="c" d='e"'/>"#;
    let xml = XmlParser::new(text).parse();
    assert_eq!(xml.attr("b"), Some("c"));
    assert_eq!(xml.attr("d"), Some("e\""));
}

#[test]
fn test_text() {
    let text = "<a>bcd</a>";
    let xml = XmlParser::new(text).parse();
    let child = xml.child(0);
    assert_eq!(child.map(|c| c.offset()), Some(3));
    assert_eq!(child.and_then(|c| c.text()), Some("bcd"));
}

#[test]
fn test_inbetween_space() {
    let text = "<a><b>x</b> <c>y</c></a>";
    let xml = XmlParser::new(text).parse();
    let child = xml.child(1);
    assert_eq!(child.and_then(|c| c.text()), Some(" "));
}

#[test]
fn test_central_space() {
    let text = "<a><b> </b></a>";
    let xml = XmlParser::new(text).parse();
    assert_eq!(xml.text(), Some(" "));
}
