[package]
name = "json_schema_sniffer"
version = "0.1.0"
edition = "2021"
publish = false

[dependencies]
serde_json = "1"
jsonschema = { version = "*", default-features = false }
