[package]
name = "htlk_executable"
version = "0.1.0"
edition = "2021"
publish = false

[dependencies]
sha2 = "0.10.9"
cbor2 = "1.1.5"
iri-string = "0.7.14"
url = "2.5.8"
base64 = "0.22.1"
serde = { version = "1.0.229", features = ["derive"] }
serde_json = "1.0.154"
