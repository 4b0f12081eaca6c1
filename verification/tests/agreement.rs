use lenient_xml::{character_entities, decode_entities, decode_entities_with, Node, XmlParser};
use std::collections::HashMap;

fn show(node: &Node) -> String {
    match node {
        Node::Element { name, offset, attributes, children } => {
            let mut pairs: Vec<(String, String)> =
                attributes.iter().map(|(k, v)| (k.clone(), v.clone())).collect();
            pairs.sort();
            let inner: Vec<String> = children.iter().map(show).collect();
            shown_element(name, *offset, &pairs, &inner)
        }
        Node::Text { text, offset } => format!("T'{}'@{}", text, offset),
        Node::Whitespace { text, offset } => format!("W'{}'@{}", text, offset),
    }
}

fn shown_element(
    name: &str,
    offset: usize,
    pairs: &[(String, String)],
    inner: &[String],
) -> String {
    let pairs: Vec<String> = pairs.iter().map(|(k, v)| format!("{}={}", k, v)).collect();
    format!("<{}@{} {{{}}} [{}]>", name, offset, pairs.join(","), inner.join(" "))
}

/// A reading that calls itself for the children of each element, written
/// with the string functions of the standard library.
struct Descent<'a> {
    input: &'a str,
    offset: usize,
}

impl<'a> Descent<'a> {
    fn rest(&self) -> &'a str {
        &self.input[self.offset..]
    }

    fn peek(&self) -> Option<char> {
        self.rest().chars().next()
    }

    fn skip(&mut self, count: usize) {
        for c in self.rest().chars().take(count) {
            self.offset += c.len_utf8();
        }
    }

    fn skip_while(&mut self, test: impl Fn(char) -> bool) {
        for c in self.rest().chars().take_while(|&c| test(c)) {
            self.offset += c.len_utf8();
        }
    }

    fn skip_past(&mut self, target: &str) {
        let first = target.chars().next().unwrap();
        while self.offset < self.input.len() {
            self.skip(1);
            self.skip_while(|c| c != first);
            if self.rest().starts_with(target) {
                break;
            }
        }
        self.skip(target.chars().count());
    }

    fn attributes(&mut self) -> Vec<(String, String)> {
        let mut found: HashMap<String, String> = HashMap::new();
        while self.offset < self.input.len() {
            self.skip_while(char::is_whitespace);
            match self.peek() {
                Some('>') | Some('/') | None => break,
                _ => {
                    let start = self.offset;
                    self.skip_while(|c| c != '=');
                    let key = self.input[start..self.offset].to_string();
                    self.skip_while(|c| c != '"' && c != '\'');
                    let quote = self.peek().unwrap_or('"');
                    self.skip(1);
                    let start = self.offset;
                    self.skip_while(|c| c != quote);
                    let value = self.input[start..self.offset].to_string();
                    found.insert(key, value);
                    self.skip(1);
                }
            }
        }
        let mut pairs: Vec<(String, String)> = found.into_iter().collect();
        pairs.sort();
        pairs
    }

    fn element(&mut self, nodes: &mut Vec<String>) {
        let start = self.offset;
        self.skip_while(|c| c != '>' && c != '/' && !c.is_whitespace());
        let name = &self.input[start..self.offset];
        let pairs = self.attributes();
        match self.peek() {
            Some('/') => {
                self.skip(2);
                nodes.push(shown_element(name, start - 1, &pairs, &[]));
            }
            Some('>') => {
                self.skip(1);
                let children = self.nodes();
                nodes.push(shown_element(name, start - 1, &pairs, &children));
            }
            _ => {}
        }
    }

    fn nodes(&mut self) -> Vec<String> {
        let mut nodes = Vec::new();
        while self.offset < self.input.len() {
            let start = self.offset;
            self.skip_while(char::is_whitespace);
            match self.peek() {
                Some('<') => {
                    if self.offset > start {
                        nodes.push(format!("W'{}'@{}", &self.input[start..self.offset], start));
                    }
                    if self.rest().starts_with("</") {
                        self.skip(2);
                        self.skip_while(|c| c != '>');
                        self.skip(1);
                        break;
                    }
                    self.skip(1);
                    match self.peek() {
                        Some('?') => {
                            self.skip(1);
                            self.skip_past("?>");
                        }
                        Some('!') => {
                            self.skip(1);
                            match self.peek() {
                                Some('-') => {
                                    self.skip(2);
                                    self.skip_past("-->");
                                }
                                Some('[') => {
                                    self.skip(1);
                                    self.skip_past("]]>");
                                }
                                _ => {
                                    self.skip_while(|c| c != '>');
                                    self.skip(1);
                                }
                            }
                        }
                        _ => self.element(&mut nodes),
                    }
                }
                Some(_) => {
                    self.skip_while(|c| c != '<');
                    nodes.push(format!("T'{}'@{}", &self.input[start..self.offset], start));
                }
                None => break,
            }
        }
        nodes
    }

    fn document(&mut self) -> String {
        let mut nodes = self.nodes();
        if nodes.len() == 1 {
            nodes.remove(0)
        } else {
            shown_element("root", 0, &[], &nodes)
        }
    }
}

fn numbered(digits: &str, radix: u32) -> Option<char> {
    if digits.is_empty() || !digits.chars().all(|c| c.is_digit(radix)) {
        return None;
    }
    u32::from_str_radix(digits, radix).ok().and_then(char::from_u32)
}

fn replaced(text: &str, table: &HashMap<&'static str, &'static str>) -> String {
    let mut rest = text;
    let mut out = String::new();
    while let Some(amp) = rest.find('&') {
        out.push_str(&rest[..amp]);
        rest = &rest[amp..];
        let semi = match rest.find(';') {
            Some(semi) => semi,
            None => break,
        };
        let name = &rest[..=semi];
        let numbered = if !rest[1..].starts_with('#') {
            None
        } else if rest[2..].starts_with('x') {
            numbered(&rest[3..semi], 16)
        } else {
            numbered(&rest[2..semi], 10)
        };
        match (table.get(name), numbered) {
            (Some(characters), _) => out.push_str(characters),
            (None, Some(c)) => out.push(c),
            (None, None) => out.push_str(name),
        }
        rest = &rest[semi + 1..];
    }
    out.push_str(rest);
    out
}

struct Dice(u64);

impl Dice {
    fn roll(&mut self, sides: usize) -> usize {
        self.0 = self.0.wrapping_mul(6364136223846793005).wrapping_add(1442695040888963407);
        ((self.0 >> 33) as usize) % sides
    }

    fn text(&mut self, pieces: &[&str], longest: usize) -> String {
        let length = self.roll(longest + 1);
        let mut text = String::new();
        for _ in 0..length {
            text.push_str(pieces[self.roll(pieces.len())]);
        }
        text
    }
}

#[test]
fn the_reader_agrees_with_recursive_descent() {
    let pieces = [
        "<", "<", "<", ">", ">", "/", "/", "</", "/>", "=", "\"", "'", " ", " ", "\n", "\u{2003}",
        "a", "b", "c", "\u{e9}", "\u{6f22}", "\u{1f600}", "!", "?", "-", "--", "[", "]", "<!--",
        "-->", "<![CDATA[", "]]>", "<?", "?>", "<!", "&amp;", "<a>", "</a>", "<b c='d'>", "x=\"y\"",
    ];
    let mut dice = Dice(7);
    for round in 0..40000 {
        let input = dice.text(&pieces, 2 + round % 24);
        let mut parser = XmlParser::new(&input);
        let tree = parser.parse();
        let mut descent = Descent { input: &input, offset: 0 };
        let expected = descent.document();
        assert_eq!(show(&tree), expected, "{:?}", input);
        assert_eq!(parser.offset, descent.offset, "{:?}", input);
    }
}

#[test]
fn the_reader_agrees_on_plain_markup() {
    let pieces = [
        "<a>", "<b>", "</a>", "</b>", "<c/>", "<d e='f'>", "</d>", "text", " ", "<!-- x -->", "t",
    ];
    let mut dice = Dice(11);
    for round in 0..20000 {
        let input = dice.text(&pieces, 1 + round % 30);
        let tree = XmlParser::new(&input).parse();
        let expected = Descent { input: &input, offset: 0 }.document();
        assert_eq!(show(&tree), expected, "{:?}", input);
    }
}

#[test]
fn the_decoder_agrees_with_the_standard_search() {
    let mut table: HashMap<&'static str, &'static str> = HashMap::new();
    for entity in entities::ENTITIES.iter() {
        table.insert(entity.entity, entity.characters);
    }
    let pieces = [
        "&", "&", "&", ";", ";", "#", "#", "x", "X", "+", "-", " ", "0", "1", "2", "3", "6", "8",
        "9", "a", "d", "e", "f", "A", "D", "F", "g", "l", "m", "p", "q", "t", "u", "o", "\u{e9}",
        "\u{1f600}", "amp", "lt", "gt", "quot", "&amp;", "&#38;", "&#x3E;", "&#xD800;", "nbsp",
    ];
    let names = character_entities();
    let mut dice = Dice(13);
    for round in 0..40000 {
        let input = dice.text(&pieces, 1 + round % 16);
        let expected = replaced(&input, &table);
        assert_eq!(decode_entities_with(&names, &input), expected, "{:?}", input);
        if round % 100 == 0 {
            assert_eq!(decode_entities(&input), expected, "{:?}", input);
        }
    }
}
