[package]
name = "diagram_collision"
version = "0.1.0"
edition = "2021"
publish = false

[dependencies]
anyhow = "*"
ciborium = "*"
derive_more = { version = "*", features = ["add", "add_assign"] }
multimap = "*"
ordered-float = "*"
serde = { version = "*", features = ["derive"] }
typst-wasm-protocol = "*"
