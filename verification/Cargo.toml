[package]
name = "brass"
version = "0.1.0"
edition = "2021"
publish = false

[dependencies]
async-trait = "0.1"
clap = { version = "4", features = ["derive"] }
flate2 = "1"
globset = "0.4"
quick-xml = { version = "0.36", features = ["serialize"] }
russh = "0.45"
russh-keys = "0.45"
serde = { version = "1", features = ["derive"] }
sha2 = "0.10"
tokio = { version = "1", features = ["rt-multi-thread", "macros"] }
