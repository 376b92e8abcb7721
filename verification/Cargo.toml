[package]
name = "cstree"
version = "0.1.0"
edition = "2021"
publish = false

[dependencies]
rustc-hash = "=2.1.3"
hashbrown = "=0.15.5"
serde = { version = "=1.0.229", features = ["derive"] }
syn = { version = "2", features = ["full"] }
quote = "1"
proc-macro2 = "1"

[dev-dependencies]
serde_json = "=1.0.154"
