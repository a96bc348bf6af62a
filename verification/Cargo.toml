[package]
name = "puzzle_client"
version = "0.1.0"
edition = "2021"
publish = false

[dependencies]
tokio = { version = "=1.54.1", default-features = false, features = ["sync"] }
futures-util = { version = "=0.3.34", features = ["sink"] }
ws_stream_wasm = "0.7"
web-sys = { version = "0.3", features = ["Window", "Document", "Location"] }
