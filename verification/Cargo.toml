[package]
name = "taplo_schema"
version = "0.1.0"
edition = "2021"
publish = false

[dependencies]
jsonschema = { version = "=0.60.2", default-features = false }
percent-encoding = "=2.3.2"
regex = "=1.13.1"
reqwest = { version = "*", default-features = false, features = ["blocking", "json", "rustls-tls"] }
semver = "=1.0.28"
serde_json = "=1.0.154"
url = "=2.5.8"
