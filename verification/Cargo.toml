[package]
name = "html_ops"
version = "0.1.0"
edition = "2021"
publish = false

[dependencies]
uuid = { version = "*", features = ["v4", "serde"] }
path-clean = "*"
sanitize-filename = "*"
html5ever = "*"
markup5ever = "*"
tendril = "*"
walkdir = "*"
clap = { version = "*", features = ["derive"] }
log = "*"
env_logger = "*"
dotenv = "*"
color-eyre = "*"
serde = { version = "*", features = ["derive"] }
thiserror = "*"
tokio = { version = "*", features = ["rt-multi-thread", "macros", "net"] }
axum = "*"
http = "*"
tower = "*"
tower-http = { version = "*", features = ["cors"] }
reqwest = { version = "*", default-features = false, features = ["json"] }
