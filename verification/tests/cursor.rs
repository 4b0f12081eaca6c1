use lenient_xml::scan::{is_whitespace, scan, CharClass};
use lenient_xml::text::{char_from, substring, utf8_width};
use lenient_xml::xml::Markup;
use lenient_xml::XmlParser;

#[test]
fn new_starts_at_the_beginning() {
    let parser = XmlParser::new("abc");
    assert_eq!(parser.input, "abc");
    assert_eq!(parser.offset, 0);
}

#[test]
fn eof_is_at_and_behind_the_end() {
    assert!(XmlParser::new("").eof());
    assert!(!XmlParser::new("a").eof());
    assert!(XmlParser { input: "a", offset: 1 }.eof());
    assert!(XmlParser { input: "a", offset: 7 }.eof());
}

#[test]
fn next_gives_the_character_at_the_offset() {
    let text = "a\u{e9}\u{6f22}\u{1f600}";
    assert_eq!(XmlParser { input: text, offset: 0 }.next(), Some('a'));
    assert_eq!(XmlParser { input: text, offset: 1 }.next(), Some('\u{e9}'));
    assert_eq!(XmlParser { input: text, offset: 3 }.next(), Some('\u{6f22}'));
    assert_eq!(XmlParser { input: text, offset: 6 }.next(), Some('\u{1f600}'));
    assert_eq!(XmlParser { input: text, offset: 10 }.next(), None);
}

#[test]
fn starts_with_compares_from_the_offset() {
    let parser = XmlParser { input: "ab</c", offset: 2 };
    assert!(parser.starts_with("</"));
    assert!(parser.starts_with(""));
    assert!(parser.starts_with("</c"));
    assert!(!parser.starts_with("</c>"));
    assert!(!parser.starts_with("<c"));
    assert!(XmlParser { input: "ab", offset: 2 }.starts_with(""));
    assert!(!XmlParser { input: "ab", offset: 2 }.starts_with("a"));
}

#[test]
fn advance_counts_characters() {
    let mut parser = XmlParser::new("\u{e9}\u{6f22}x");
    parser.advance(0);
    assert_eq!(parser.offset, 0);
    parser.advance(1);
    assert_eq!(parser.offset, 2);
    parser.advance(2);
    assert_eq!(parser.offset, 6);
    parser.advance(5);
    assert_eq!(parser.offset, 6);
}

#[test]
fn advance_stops_at_the_end() {
    let mut parser = XmlParser::new("ab");
    parser.advance(10);
    assert_eq!(parser.offset, 2);
}

#[test]
fn advance_while_stops_at_the_first_character_outside() {
    let mut parser = XmlParser::new(" \t\u{2003}x y");
    parser.advance_while(CharClass::Whitespace);
    assert_eq!(parser.offset, 5);
    parser.advance_while(CharClass::Whitespace);
    assert_eq!(parser.offset, 5);
    parser.advance_while(CharClass::Except('y'));
    assert_eq!(parser.offset, 7);
    parser.advance_while(CharClass::Except('z'));
    assert_eq!(parser.offset, 8);
}

#[test]
fn advance_until_passes_the_target() {
    let mut parser = XmlParser::new("ab-->cd");
    parser.advance_until("-->");
    assert_eq!(parser.offset, 5);
}

#[test]
fn advance_until_passes_one_character_first() {
    let mut parser = XmlParser::new("-->ab-->cd");
    parser.advance_until("-->");
    assert_eq!(parser.offset, 8);
}

#[test]
fn advance_until_tries_again_behind_a_failed_place() {
    let mut parser = XmlParser::new("a]]]>b");
    parser.advance_until("]]>");
    assert_eq!(parser.offset, 5);
    let mut parser = XmlParser::new("a-- -->b");
    parser.advance_until("-->");
    assert_eq!(parser.offset, 7);
}

#[test]
fn advance_until_without_the_target_goes_to_the_end() {
    let mut parser = XmlParser::new("ab--cd");
    parser.advance_until("-->");
    assert_eq!(parser.offset, 6);
    let mut parser = XmlParser::new("");
    parser.advance_until("-->");
    assert_eq!(parser.offset, 0);
}

#[test]
fn advance_until_with_an_empty_target_stays() {
    let mut parser = XmlParser::new("abc");
    parser.advance_until("");
    assert_eq!(parser.offset, 0);
}

#[test]
fn advance_until_takes_any_target() {
    let mut parser = XmlParser::new("x\u{e9}\u{e8}\u{e9}\u{ea}y");
    parser.advance_until("\u{e9}\u{ea}");
    assert_eq!(parser.offset, 9);
}

#[test]
fn parse_attributes_stops_on_the_end_of_the_tag() {
    let mut parser = XmlParser::new(" b=\"c\" d='e' >x");
    let attributes = parser.parse_attributes();
    assert_eq!(parser.offset, 13);
    assert_eq!(attributes.len(), 2);
    assert_eq!(attributes.get("b").map(String::as_str), Some("c"));
    assert_eq!(attributes.get("d").map(String::as_str), Some("e"));
    let mut parser = XmlParser::new("  />");
    assert!(parser.parse_attributes().is_empty());
    assert_eq!(parser.offset, 2);
}

#[test]
fn parse_attributes_takes_the_quote_that_comes_first() {
    let mut parser = XmlParser::new("a=x'y\"z' b=\"1\">");
    let attributes = parser.parse_attributes();
    assert_eq!(attributes.get("a").map(String::as_str), Some("y\"z"));
    assert_eq!(attributes.get("b").map(String::as_str), Some("1"));
    assert_eq!(parser.offset, 14);
}

#[test]
fn parse_attributes_without_closing_quote_runs_to_the_end() {
    let mut parser = XmlParser::new("a=\"bc>");
    let attributes = parser.parse_attributes();
    assert_eq!(attributes.get("a").map(String::as_str), Some("bc>"));
    assert!(parser.eof());
}

#[test]
fn parse_element_tells_the_three_outcomes() {
    let mut parser = XmlParser { input: "<a b='c'/>x", offset: 1 };
    match parser.parse_element() {
        Markup::Empty(tag) => {
            assert_eq!(tag.name, "a");
            assert_eq!(tag.offset, 0);
            assert_eq!(tag.attributes.get("b").map(String::as_str), Some("c"));
        }
        other => panic!("{:?}", other),
    }
    assert_eq!(parser.offset, 10);
    let mut parser = XmlParser { input: "x<ab >y", offset: 2 };
    match parser.parse_element() {
        Markup::Open(tag) => {
            assert_eq!(tag.name, "ab");
            assert_eq!(tag.offset, 1);
            assert!(tag.attributes.is_empty());
        }
        other => panic!("{:?}", other),
    }
    assert_eq!(parser.offset, 6);
    let mut parser = XmlParser { input: "<ab ", offset: 1 };
    assert!(matches!(parser.parse_element(), Markup::Skipped));
    assert_eq!(parser.offset, 4);
}

#[test]
fn a_slash_ends_a_tag_whatever_follows() {
    let mut parser = XmlParser { input: "<a/b>c", offset: 1 };
    assert!(matches!(parser.parse_element(), Markup::Empty(_)));
    assert_eq!(parser.offset, 4);
}

#[test]
fn parse_markup_passes_what_is_no_element() {
    let mut parser = XmlParser { input: "<?a?>b", offset: 1 };
    assert!(matches!(parser.parse_markup(), Markup::Skipped));
    assert_eq!(parser.offset, 5);
    let mut parser = XmlParser { input: "<!-- a -->b", offset: 1 };
    assert!(matches!(parser.parse_markup(), Markup::Skipped));
    assert_eq!(parser.offset, 10);
    let mut parser = XmlParser { input: "<![CDATA[a]]>b", offset: 1 };
    assert!(matches!(parser.parse_markup(), Markup::Skipped));
    assert_eq!(parser.offset, 13);
    let mut parser = XmlParser { input: "<!DOCTYPE a>b", offset: 1 };
    assert!(matches!(parser.parse_markup(), Markup::Skipped));
    assert_eq!(parser.offset, 12);
    let mut parser = XmlParser { input: "<!", offset: 2 };
    assert!(matches!(parser.parse_markup(), Markup::Skipped));
    assert_eq!(parser.offset, 2);
}

#[test]
fn skip_end_tag_passes_to_the_closing_bracket() {
    let mut parser = XmlParser { input: "a</b c>d", offset: 1 };
    parser.skip_end_tag();
    assert_eq!(parser.offset, 7);
    let mut parser = XmlParser { input: "</b", offset: 0 };
    parser.skip_end_tag();
    assert_eq!(parser.offset, 3);
}

#[test]
fn whitespace_is_what_std_calls_whitespace() {
    for v in 0..=0x10FFFFu32 {
        if let Some(c) = char::from_u32(v) {
            assert_eq!(is_whitespace(c), c.is_whitespace(), "U+{:04X}", v);
        }
    }
}

#[test]
fn width_is_the_length_in_utf8() {
    for v in 0..=0x10FFFFu32 {
        if let Some(c) = char::from_u32(v) {
            assert_eq!(utf8_width(c), c.len_utf8(), "U+{:04X}", v);
        }
    }
    assert_eq!(utf8_width('a'), 1);
    assert_eq!(utf8_width('\u{7ff}'), 2);
    assert_eq!(utf8_width('\u{800}'), 3);
    assert_eq!(utf8_width('\u{10000}'), 4);
}

#[test]
fn char_classes_hold_what_they_name() {
    assert!(CharClass::Whitespace.contains(' '));
    assert!(CharClass::Whitespace.contains('\u{3000}'));
    assert!(!CharClass::Whitespace.contains('a'));
    assert!(CharClass::Except('=').contains('a'));
    assert!(!CharClass::Except('=').contains('='));
    assert!(CharClass::ExceptQuotes.contains('='));
    assert!(!CharClass::ExceptQuotes.contains('"'));
    assert!(!CharClass::ExceptQuotes.contains('\''));
    assert!(CharClass::Name.contains('a'));
    assert!(CharClass::Name.contains('='));
    assert!(!CharClass::Name.contains('>'));
    assert!(!CharClass::Name.contains('/'));
    assert!(!CharClass::Name.contains('\n'));
}

#[test]
fn substring_cuts_between_positions() {
    let text = "a\u{e9}\u{6f22}b";
    assert_eq!(substring(text, 0, 0), "");
    assert_eq!(substring(text, 1, 3), "\u{e9}");
    assert_eq!(substring(text, 1, 6), "\u{e9}\u{6f22}");
    assert_eq!(substring(text, 0, 7), text);
    assert_eq!(substring(text, 7, 7), "");
}

#[test]
fn char_from_reads_one_character() {
    let text = "a\u{e9}";
    assert_eq!(char_from(text, 0), Some('a'));
    assert_eq!(char_from(text, 1), Some('\u{e9}'));
    assert_eq!(char_from(text, 3), None);
}

#[test]
fn scan_gives_the_end_of_the_run() {
    assert_eq!(scan("  ab", 0, CharClass::Whitespace), 2);
    assert_eq!(scan("  ab", 2, CharClass::Whitespace), 2);
    assert_eq!(scan("\u{e9}\u{e9}=1", 0, CharClass::Except('=')), 4);
    assert_eq!(scan("abc", 1, CharClass::Except('=')), 3);
    assert_eq!(scan("ab c>", 0, CharClass::Name), 2);
    assert_eq!(scan("a='b'", 1, CharClass::ExceptQuotes), 2);
}
