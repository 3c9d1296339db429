[package]
name = "pondobro"
version = "0.1.0"
edition = "2021"
publish = false

[dependencies]
serde = { version = "*", features = ["derive"] }
serde_json = "*"
yew = { version = "*", features = ["csr"] }
gloo-net = "*"
wasm-bindgen-futures = "*"
web-sys = { version = "*", features = ["Window", "Storage", "Location", "HtmlInputElement", "HtmlSelectElement", "InputEvent", "Event", "RequestCredentials"] }
