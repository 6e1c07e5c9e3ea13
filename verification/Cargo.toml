[package]
name = "fetchurl_sdk"
version = "0.2.0"
edition = "2021"
publish = false

[dependencies]
clap = { version = "4", features = ["derive"] }
digest = "=0.11.3"
rand = "=0.8.8"
sha1 = "=0.11.0"
sha2 = "=0.11.1"
thiserror = "=1.0.69"
ureq = "2"
