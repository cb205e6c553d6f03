[package]
name = "mls_client"
version = "0.1.0"
edition = "2021"
publish = false

[dependencies]
base64 = "=0.13.1"
cocoon = "=0.5.0"
log = "0.4"
openmls = { version = "=0.5.0", features = ["test-utils"] }
openmls_basic_credential = "=0.2.0"
openmls_rust_crypto = "=0.2.0"
openmls_traits = "=0.2.0"
serde = { version = "1", features = ["derive"] }
serde_json = "1"
thiserror = "1"
