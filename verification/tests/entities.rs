use lenient_xml::entity::ENTITY_COUNT;
use lenient_xml::{
    character_entities, decode_entities, decode_entities_with, find_entity, Attributes,
};
use std::borrow::Cow;

#[test]
fn test_entities() {
    assert_eq!(decode_entities("a &amp b"), "a &amp b");
    assert_eq!(decode_entities("a &zZz; b"), "a &zZz; b");
    assert_eq!(decode_entities("a &amp; b"), "a & b");
    assert_eq!(decode_entities("a &#x003E; b"), "a > b");
    assert_eq!(decode_entities("a &#38; b"), "a & b");
    assert_eq!(decode_entities("a &lt; b &gt; c"), "a < b > c");
}

#[test]
fn text_without_ampersand_comes_back_borrowed() {
    for text in ["", "abc", "a ; b", "\u{e9}\u{6f22}\u{1f600}", "#38;"] {
        let decoded = decode_entities(text);
        assert_eq!(decoded, text);
        assert!(matches!(decoded, Cow::Borrowed(_)));
    }
}

#[test]
fn text_with_ampersand_comes_back_owned() {
    assert!(matches!(decode_entities("a & b"), Cow::Owned(_)));
    assert!(matches!(decode_entities("&amp;"), Cow::Owned(_)));
}

#[test]
fn ampersand_without_semicolon_stays() {
    assert_eq!(decode_entities("&"), "&");
    assert_eq!(decode_entities("a & b"), "a & b");
    assert_eq!(decode_entities("&amp"), "&amp");
    assert_eq!(decode_entities("&lt; and &gt"), "< and &gt");
}

#[test]
fn unknown_names_stay() {
    assert_eq!(decode_entities("&;"), "&;");
    assert_eq!(decode_entities("&nosuchname;"), "&nosuchname;");
    assert_eq!(decode_entities("a & b; c"), "a & b; c");
    assert_eq!(decode_entities("&AMP ;"), "&AMP ;");
}

#[test]
fn a_reference_runs_to_the_first_semicolon() {
    assert_eq!(decode_entities("&&amp;"), "&&amp;");
    assert_eq!(decode_entities("& &amp; &amp;"), "& &amp; &");
    assert_eq!(decode_entities("&amp;;"), "&;");
}

#[test]
fn decimal_references_name_a_character() {
    assert_eq!(decode_entities("&#65;"), "A");
    assert_eq!(decode_entities("&#0065;"), "A");
    assert_eq!(decode_entities("&#233;"), "\u{e9}");
    assert_eq!(decode_entities("&#128512;"), "\u{1f600}");
    assert_eq!(decode_entities("&#0;"), "\0");
    assert_eq!(decode_entities("&#1114111;"), "\u{10ffff}");
}

#[test]
fn hexadecimal_references_name_a_character() {
    assert_eq!(decode_entities("&#x41;"), "A");
    assert_eq!(decode_entities("&#xe9;"), "\u{e9}");
    assert_eq!(decode_entities("&#xE9;"), "\u{e9}");
    assert_eq!(decode_entities("&#x1F600;"), "\u{1f600}");
    assert_eq!(decode_entities("&#x10FFFF;"), "\u{10ffff}");
}

#[test]
fn a_plus_sign_is_no_digit() {
    assert_eq!(decode_entities("&#+38;"), "&#+38;");
    assert_eq!(decode_entities("&#x+26;"), "&#x+26;");
    assert_eq!(decode_entities("a &#+38; b"), "a &#+38; b");
    assert_eq!(decode_entities("&#+;"), "&#+;");
    assert_eq!(decode_entities("&#+0;"), "&#+0;");
    assert_eq!(decode_entities("&#3+8;"), "&#3+8;");
    assert_eq!(decode_entities("&#38+;"), "&#38+;");
    assert_eq!(decode_entities("&#+38;&#38;"), "&#+38;&");
    let empty = Attributes::default();
    assert_eq!(decode_entities_with(&empty, "a &#+38; b"), "a &#+38; b");
    assert_eq!(decode_entities_with(&empty, "&#x+26;"), "&#x+26;");
}

#[test]
fn bad_digits_stay() {
    assert_eq!(decode_entities("&#;"), "&#;");
    assert_eq!(decode_entities("&#x;"), "&#x;");
    assert_eq!(decode_entities("&#+;"), "&#+;");
    assert_eq!(decode_entities("&#-38;"), "&#-38;");
    assert_eq!(decode_entities("&#++38;"), "&#++38;");
    assert_eq!(decode_entities("&#3 8;"), "&#3 8;");
    assert_eq!(decode_entities("&#3_8;"), "&#3_8;");
    assert_eq!(decode_entities("&#12a;"), "&#12a;");
    assert_eq!(decode_entities("&#xg;"), "&#xg;");
    assert_eq!(decode_entities("&#X41;"), "&#X41;");
    assert_eq!(decode_entities("&#\u{663};"), "&#\u{663};");
    assert_eq!(decode_entities("&# 38;"), "&# 38;");
}

#[test]
fn numbers_that_name_no_character_stay() {
    assert_eq!(decode_entities("&#xD800;"), "&#xD800;");
    assert_eq!(decode_entities("&#xDFFF;"), "&#xDFFF;");
    assert_eq!(decode_entities("&#55296;"), "&#55296;");
    assert_eq!(decode_entities("&#x110000;"), "&#x110000;");
    assert_eq!(decode_entities("&#1114112;"), "&#1114112;");
    assert_eq!(decode_entities("&#4294967295;"), "&#4294967295;");
    assert_eq!(decode_entities("&#4294967296;"), "&#4294967296;");
    assert_eq!(decode_entities("&#x100000000;"), "&#x100000000;");
    assert_eq!(decode_entities("&#xD7FF;"), "\u{d7ff}");
    assert_eq!(decode_entities("&#xE000;"), "\u{e000}");
}

#[test]
fn a_name_may_stand_for_two_characters() {
    assert_eq!(decode_entities("&acE;"), "\u{223e}\u{333}");
}

#[test]
fn what_surrounds_a_reference_stays() {
    assert_eq!(decode_entities("\u{e9} &amp; \u{fc}"), "\u{e9} & \u{fc}");
    assert_eq!(decode_entities("&eacute;t&eacute;"), "\u{e9}t\u{e9}");
    assert_eq!(decode_entities("&lt;&gt;"), "<>");
    assert_eq!(decode_entities("x&#x4e2d;\u{6587}&#25991;y"), "x\u{4e2d}\u{6587}\u{6587}y");
}

#[test]
fn decoding_is_one_pass() {
    let once = decode_entities("&amp;lt;");
    assert_eq!(once, "&lt;");
    let twice = decode_entities(&once);
    assert_eq!(twice, "<");
    assert_ne!(once, twice);
    assert_eq!(decode_entities("&amp;#38;"), "&#38;");
}

#[test]
fn the_table_holds_every_entity() {
    let table = character_entities();
    assert_eq!(ENTITY_COUNT, entities::ENTITIES.len());
    assert_eq!(table.len(), ENTITY_COUNT);
    for entity in entities::ENTITIES.iter() {
        assert_eq!(table.get(entity.entity).map(String::as_str), Some(entity.characters));
    }
    assert_eq!(table.get("&amp;").map(String::as_str), Some("&"));
    assert_eq!(table.get("&amp").map(String::as_str), Some("&"));
    assert_eq!(table.get("&nosuchname;"), None);
}

#[test]
fn decoding_goes_by_the_table_given() {
    let mut table = Attributes::default();
    table.insert("&x;".to_string(), "y".to_string());
    table.insert("&#65;".to_string(), "not A".to_string());
    assert_eq!(decode_entities_with(&table, "&x;&amp;&#65;&#66;"), "y&amp;not AB");
    let empty = Attributes::default();
    assert_eq!(decode_entities_with(&empty, "&amp;&#38;"), "&amp;&");
    assert!(matches!(decode_entities_with(&table, "x;"), Cow::Borrowed("x;")));
}

#[test]
fn decoding_with_the_table_is_decoding() {
    let table = character_entities();
    for text in ["a &amp; b", "&lt;&#x3e;&zZz;", "plain", "&amp", "&#38;&amp;lt;"] {
        assert_eq!(decode_entities_with(&table, text), decode_entities(text));
    }
}

#[test]
fn find_entity_knows_every_entity() {
    for entity in entities::ENTITIES.iter() {
        assert_eq!(find_entity(entity.entity), Some(entity.characters));
    }
    assert_eq!(find_entity("&amp;"), Some("&"));
    assert_eq!(find_entity("&amp"), Some("&"));
    assert_eq!(find_entity("&Amp;"), None);
    assert_eq!(find_entity("amp;"), None);
    assert_eq!(find_entity("&amp;;"), None);
    assert_eq!(find_entity(""), None);
    assert_eq!(find_entity("&\u{e9};"), None);
}
