[package]
name = "verkle_trie"
version = "0.1.0"
edition = "2021"
publish = false

[dependencies]
dotenv = "*"
futures-util = "*"
reqwest = { version = "*", features = ["json"] }
serde = { version = "*", features = ["derive"] }
serde_json = "*"
sqlx = { version = "*", features = ["postgres", "runtime-tokio"] }
tokio = { version = "*", features = ["full"] }
tokio-postgres = "*"
tokio-tungstenite = { version = "*", features = ["native-tls"] }
