[package]
name = "markdown_preview_service"
version = "0.1.0"
edition = "2021"
publish = false

[dependencies]
syntect = { version = "=5.3.0", default-features = false, features = ["default-fancy"] }
pulldown-cmark = "=0.13.6"
cosmic-text = "=0.19.0"
fontdb = "=0.24.0"
resvg = "=0.49.0"
tiny-skia = "=0.12.0"
chrono = "=0.4.45"
axum = "=0.8.9"
tokio = { version = "=1.54.1", features = ["rt-multi-thread", "macros", "net"] }
mathjax-svg-rs = "*"
