[package]
name = "life_grid"
version = "0.1.0"
edition = "2021"
publish = false

[dependencies]
web-sys = { version = "0.3", features = ["CanvasRenderingContext2d", "Document", "DomRect", "Element", "HtmlCanvasElement", "ImageData", "Window"] }
yew = { version = "0.21", features = ["csr"] }
yew-router = "0.18"
web-sys-main-loop = "*"
