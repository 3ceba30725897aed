[package]
name = "loomgui_core"
version = "0.1.0"
edition = "2021"
publish = false

[dependencies]
bincode = "=1.3.3"
cssparser = "=0.34.0"
scraper = "=0.29.0"
serde = { version = "=1.0.229", features = ["derive"] }
serde_json = "=1.0.154"
slotmap = "=1.1.1"
taffy = { version = "=0.5.2", features = ["serde"] }
