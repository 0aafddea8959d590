[package]
name = "oxigraph_cloud"
version = "0.1.0"
edition = "2021"
publish = false

[dependencies]
siphasher = "=1.0.4"
oxrdf = "=0.3.5"
serde = { version = "=1.0.229", features = ["derive"] }
uuid = { version = "=1.29.0", features = ["v4"] }
oxhttp = "*"
clap = { version = "4", features = ["derive", "env"] }
dashmap = "6"
url = "2"
serde_json = "1"
anyhow = "1"
