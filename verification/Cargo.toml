[package]
name = "aether"
version = "0.1.0"
edition = "2021"
publish = false

[dependencies]
base64 = "=0.22.1"
encoding_rs = "=0.8.44"
fancy-regex = "=0.20.0"
image = { version = "=0.25.10", default-features = false, features = ["png", "jpeg", "gif", "webp", "bmp", "ico"] }
pulldown-cmark = { version = "=0.13.6", default-features = false }
rquickjs = "=0.14.0"
self_update = { version = "=1.3.3", default-features = false, features = ["github", "reqwest", "rustls"] }
serde_json = { version = "=1.0.154", features = ["float_roundtrip"] }
syntect = { version = "=5.3.0", default-features = false, features = ["default-onig"] }
tree-sitter-highlight = "=0.27.1"
tree-sitter-javascript = "=0.25.0"
tree-sitter-json = "=0.24.8"
tree-sitter-rust = "=0.24.2"
tree-sitter-typescript = "=0.23.2"
tungstenite = { version = "=0.30.0", features = ["rustls-tls-webpki-roots"] }
ureq = "=3.5.1"
x11rb = { version = "=0.14.0", features = ["xtest"] }
