[package]
name = "clobber"
version = "0.1.0"
edition = "2021"
publish = false

[dependencies]
rand = "*"
tokio = { version = "*", features = ["macros", "rt-multi-thread", "time"] }
podman-api = "*"
nvml-wrapper = "*"
sysinfo = "*"
reqwest = { version = "*", default-features = false, features = ["blocking"] }
users = "*"
clap = { version = "*", features = ["derive"] }
colored = "*"

[dev-dependencies]
serde_json = "*"
