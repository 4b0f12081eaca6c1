[package]
name = "lenient_xml"
version = "0.1.0"
edition = "2021"
publish = false

[dependencies]
entities = "1.0"
fnv = "1.0"
lazy_static = "1.4"
