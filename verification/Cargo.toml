[package]
name = "ocastaproxy"
version = "0.1.0"
edition = "2021"
publish = false

[dependencies]
axum = { version = "0.6", features = ["ws"] }
base64 = "0.21"
futures-util = "0.3"
js-sys = "0.3"
lol_html = "0.4"
regex = "1"
reqwest = { version = "0.11", default-features = false }
serde = { version = "1", features = ["derive"] }
serde_urlencoded = "0.7"
tokio = { version = "1", features = ["full"] }
tokio-tungstenite = "0.20"
wasm-bindgen = "0.2"
web-sys = { version = "0.3", features = ["Window", "Location", "Request", "Url", "console"] }
