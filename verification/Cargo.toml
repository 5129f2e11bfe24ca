[package]
name = "radar"
version = "0.1.0"
edition = "2021"
publish = false

[dependencies]
axum = "*"
base64 = "*"
reqwest = { version = "*", default-features = false, features = ["json"] }
resvg = "*"
serde = { version = "*", features = ["derive"] }
serde_json = "*"
tiny-skia = "*"
tokio = { version = "*", features = ["rt-multi-thread", "macros", "net"] }
tower-http = { version = "*", features = ["trace"] }
tracing = "*"
tracing-subscriber = { version = "*", features = ["env-filter", "fmt"] }
usvg = "*"
