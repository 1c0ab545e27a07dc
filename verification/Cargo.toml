[package]
name = "ptero"
version = "0.1.0"
edition = "2021"
publish = false

[dependencies]
rand = "0.8"
regex = "1"
unicode-segmentation = "1"
clap = { version = "4", features = ["derive"] }
colored = "2"
atty = "0.2"
fern = { version = "0.6", features = ["colored"] }
log = "0.4"
chrono = "0.4"
indicatif = "0.17"
spinners = "4"
serde_json = "1"
