//! A forgiving reader of XML and HTML text, as e-books hold it, and a decoder
//! of the character references in such text.
//!
//! [`XmlParser::parse`] turns a text into a tree of [`Node`]s and fails on no
//! input: what is cut short or out of place is passed over. Each node keeps
//! the offset, counted in bytes, at which it begins in the text.
//! [`decode_entities`] replaces the named and the numeric character
//! references of a text; the reader itself leaves them as they are.

pub mod dom;
pub mod entity;
pub mod examples;
pub mod grammar;
pub mod number;
pub mod order;
pub mod scan;
pub mod stack;
pub mod string_map;
pub mod text;
pub mod xml;

pub use crate::dom::{element, text, whitespace, Attributes, Node};
pub use crate::entity::{
    character_entities, decode_entities, decode_entities_with, find_entity,
};
pub use crate::xml::XmlParser;
