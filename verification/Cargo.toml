[package]
name = "excel_to_xml"
version = "0.1.0"
edition = "2021"
publish = false

[dependencies]
regex = "*"
calamine = "*"
quick-xml = "*"
serde_json = "*"
