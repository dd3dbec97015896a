[package]
name = "team_solver"
version = "0.1.0"
edition = "2021"
publish = false

[dependencies]
csv = "1"
serde = { version = "1", features = ["derive"] }
yew = { version = "0.21", features = ["csr"] }
gloo-file = "0.3"
web-sys = { version = "0.3", features = ["HtmlInputElement", "HtmlSelectElement", "File", "FileList", "Event", "EventTarget"] }
good_lp = { version = "1", default-features = false, features = ["microlp"] }
