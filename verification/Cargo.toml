[package]
name = "dns_filter"
version = "0.1.0"
edition = "2021"
publish = false

[dependencies]
lru = { version = "*", default-features = false }
tokio = { version = "1", features = ["macros", "net", "rt-multi-thread", "sync", "time"] }
actix-web = { version = "4", default-features = false, features = ["macros", "openssl"] }
actix-files = "0.6"
actix-web-httpauth = "0.8"
actix-rt = "2"
openssl = "0.10"
serde = { version = "1", features = ["derive"] }
serde_json = "1"
structopt = "0.3"
