[package]
name = "diff_core"
version = "0.1.0"
edition = "2021"
publish = false

[dependencies]
similar = "=2.7.0"
encoding_rs = "=0.8.44"
anyhow = "=1.0.104"
clap = { version = "=4.5.61", features = ["derive"] }
egui = { version = "=0.27.2", default-features = false, features = ["default_fonts"] }
