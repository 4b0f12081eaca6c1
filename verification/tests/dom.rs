use lenient_xml::{element, text, whitespace, Attributes, Node};

fn sample() -> Node {
    let mut attributes = Attributes::default();
    attributes.insert("id".to_string(), "x".to_string());
    attributes.insert("class".to_string(), "y z".to_string());
    let inner = element("b", 3, Attributes::default(), vec![whitespace(" ", 6), text("t", 7)]);
    element("a", 0, attributes, vec![inner, text("u", 12)])
}

#[test]
fn element_holds_what_it_was_given() {
    match sample() {
        Node::Element { name, offset, attributes, children } => {
            assert_eq!(name, "a");
            assert_eq!(offset, 0);
            assert_eq!(attributes.len(), 2);
            assert_eq!(children.len(), 2);
        }
        other => panic!("{:?}", other),
    }
}

#[test]
fn text_and_whitespace_hold_what_they_were_given() {
    assert!(matches!(text("ab", 4), Node::Text { text, offset: 4 } if text == "ab"));
    assert!(matches!(whitespace("\n", 9), Node::Whitespace { text, offset: 9 } if text == "\n"));
}

#[test]
fn tag_name_is_that_of_an_element() {
    assert_eq!(sample().tag_name(), Some("a"));
    assert_eq!(text("a", 0).tag_name(), None);
    assert_eq!(whitespace(" ", 0).tag_name(), None);
}

#[test]
fn offset_is_that_of_the_node() {
    assert_eq!(sample().offset(), 0);
    assert_eq!(text("a", 5).offset(), 5);
    assert_eq!(whitespace(" ", 8).offset(), 8);
}

#[test]
fn attr_finds_a_value_by_its_key() {
    let node = sample();
    assert_eq!(node.attr("id"), Some("x"));
    assert_eq!(node.attr("class"), Some("y z"));
    assert_eq!(node.attr("x"), None);
    assert_eq!(node.attr(""), None);
    assert_eq!(text("id", 0).attr("id"), None);
}

#[test]
fn child_counts_from_zero() {
    let node = sample();
    assert_eq!(node.child(0).and_then(|c| c.tag_name()), Some("b"));
    assert_eq!(node.child(1).map(|c| c.offset()), Some(12));
    assert!(node.child(2).is_none());
    assert!(text("a", 0).child(0).is_none());
    assert!(whitespace(" ", 0).child(0).is_none());
}

#[test]
fn text_of_a_leaf_is_its_own() {
    assert_eq!(text("ab", 0).text(), Some("ab"));
    assert_eq!(whitespace(" \n", 0).text(), Some(" \n"));
}

#[test]
fn text_of_an_element_is_that_of_its_first_child() {
    assert_eq!(sample().text(), Some(" "));
    assert_eq!(sample().child(0).and_then(|c| c.text()), Some(" "));
    let empty = element("a", 0, Attributes::default(), Vec::new());
    assert_eq!(empty.text(), None);
    let hollow = element("a", 0, Attributes::default(), vec![empty, text("t", 4)]);
    assert_eq!(hollow.text(), None);
}
