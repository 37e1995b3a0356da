[package]
name = "packet_codec"
version = "0.1.0"
edition = "2021"

[dependencies]
byteorder = "1"
uuid = "1"
serde = { version = "1", features = ["derive"] }
