[package]
name = "leptos_scoped_style"
version = "0.1.0"
edition = "2021"
publish = false

[dependencies]
leptos = "0.8"
leptos_meta = "0.8"
web-sys = { version = "0.3", features = ["Window", "Document", "Element", "HtmlHeadElement", "HtmlCollection", "Node", "Text", "console"] }
grass_compiler = "0.13"
