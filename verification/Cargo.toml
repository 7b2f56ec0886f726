[package]
name = "dirindex"
version = "0.1.0"
edition = "2021"
publish = false

[dependencies]
argh = "*"
axum = "*"
axum-extra = { version = "*", features = ["typed-header"] }
base64 = "*"
chrono = "*"
dashmap = "*"
humantime = "*"
image = "*"
infer = "*"
md5 = "*"
mime_guess = "*"
moka = { version = "*", features = ["sync"] }
percent-encoding = "*"
regex = "*"
serde = { version = "*", features = ["derive"] }
tera = "*"
thiserror = "*"
tokio = { version = "*", features = ["full"] }
toml = "*"
tower-http = { version = "*", features = ["compression-full"] }
tracing = "*"
tracing-subscriber = "*"
ts-rs = "*"
webp = "*"
