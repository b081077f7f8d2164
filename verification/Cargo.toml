[package]
name = "nullnet-grpc"
version = "0.1.0"
edition = "2021"
publish = false

[dependencies]
ctrlc = { version = "3", features = ["termination"] }
ipnetwork = "*"
notify = "*"
nullnet-liberror = "*"
prost = "0.14"
serde = { version = "1", features = ["derive"] }
tokio = { version = "1", features = ["rt-multi-thread", "macros", "sync", "time", "fs"] }
toml = "*"
tonic = "0.14"
tonic-prost = "0.14"
uuid = { version = "1", features = ["v4"] }
