[package]
name = "duallity"
version = "0.1.0"
edition = "2021"
publish = false

[dependencies]
libdictenstein = "=0.2.0"
liblevenshtein = { version = "=0.9.1", features = ["phonetic-rules"] }
lling-llang = "=0.2.0"
rustc-hash = "=2.1.3"
smallvec = "=1.16.4"
