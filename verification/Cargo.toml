[package]
name = "norm_codec"
version = "0.1.0"
edition = "2021"
publish = false

[dependencies]
serde_json = { version = "1", features = ["arbitrary_precision", "preserve_order"] }
clap = { version = "4", features = ["derive"] }
thiserror = "*"
