[package]
name = "tdc"
version = "0.1.0"
edition = "2021"
publish = false

[dependencies]
slab = { version = "0.4", features = ["serde"] }
glob = "0.3"
serde = { version = "1", features = ["derive"] }
ron = "*"
clap = { version = "4", features = ["derive"] }
tabled = "*"
thiserror = "*"
