[package]
name = "manix"
version = "0.8.0"
edition = "2021"
publish = false

[dependencies]
anyhow = "=1.0.104"
colored = "=3.1.1"
crc32fast = "=1.5.2"
rayon = "=1.12.0"
rnix = "=0.11.0"
rowan = "=0.15.19"
roxmltree = "=0.21.1"
serde = { version = "=1.0.229", features = ["derive"] }
serde_json = "=1.0.151"
structopt = "=0.3.26"
walkdir = "=2.5.0"
xdg = "=3.0.0"
