[package]
name = "user_manager"
version = "0.1.0"
edition = "2021"
publish = false

[dependencies]
sha2 = "0.10"
chrono = "0.4"
serde = { version = "1", features = ["derive"] }
yew = { version = "0.21", features = ["csr"] }
yew-router = "0.18"
gloo-storage = "0.3"
gloo-console = "0.3"
gloo-net = "*"
wasm-bindgen-futures = "0.4"
web-sys = { version = "0.3", features = ["HtmlInputElement"] }
