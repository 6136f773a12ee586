[package]
name = "blog_search"
version = "0.1.0"
edition = "2021"
publish = false

[dependencies]
tantivy = "0.19"
native-tls = "0.2"
serde = { version = "1", features = ["derive"] }
serde_json = "1"
toml = "0.7"
time = { version = "0.3", features = ["formatting", "parsing"] }
