[package]
name = "relrc"
version = "0.1.0"
edition = "2021"
publish = false

[dependencies]
fxhash = "0.2"
slotmap = "1"
rustc-hash = "2"
itertools = "0.14"
serde = { version = "1", features = ["derive"] }
thiserror = "2"
futures = "0.3"
