[package]
name = "grpc_benchmark"
version = "0.1.0"
edition = "2021"
publish = false

[dependencies]
chrono = "*"
clap = { version = "*", features = ["derive", "env"] }
colored = "*"
console = "*"
dotenvy = "*"
serde = { version = "*", features = ["derive"] }
serde_json = "*"
statistical = "*"
thiserror = "*"
