[package]
name = "cdc_store"
version = "0.1.0"
edition = "2021"
rust-version = "1.95"
publish = false

[dependencies]
bstr = "=1.13.1"
fastcdc = "=4.0.1"
gix = { version = "=0.83.0", default-features = false, features = ["attributes", "sha1"] }
kstring = "=2.0.2"
thiserror = "=2.0.21"
