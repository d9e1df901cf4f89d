[package]
name = "site_server"
version = "0.1.0"
edition = "2021"
publish = false

[dependencies]
regex = "1"
urlencoding = "2"
rand = "*"
uuid = { version = "1", features = ["v4"] }
serde = { version = "1", features = ["derive"] }
serde_json = "1"
tiny_http = { version = "0.12", features = ["ssl-rustls"] }
directories = "*"
log = "0.4"
simple_logger = "*"
