[package]
name = "vdb"
version = "0.2.0"
edition = "2021"
publish = false

[dependencies]
serde = { version = "1", features = ["derive"] }
serde_json = "1"
serde_yaml = "0.9"
clap = { version = "4", features = ["derive"] }
image = "0.25"
imageproc = "0.25"
ab_glyph = "0.2"
lyon_path = "1"
lyon_tessellation = "1"
walkdir = "2"
