[package]
name = "ayame_core"
version = "0.1.0"
edition = "2021"
publish = false

[dependencies]
anyhow = "1"
chardetng = "0.1"
csv-core = "0.1"
ed25519-dalek = "2"
encoding_rs = "0.8"
getrandom = "0.3"
libc = "0.2"
memchr = "2"
memmap2 = "0.9"
rayon = "1"
regex = "1"
serde = { version = "1", features = ["derive"] }
serde_json = "1"
sha2 = "0.10"
thiserror = "2"
toml_edit = "0.22"
unicode-normalization = "0.1"
