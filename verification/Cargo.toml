[package]
name = "markdown_blog"
version = "0.1.0"
edition = "2021"
publish = false

[dependencies]
build_html = "2"
chrono = "0.4"
