[package]
name = "kuberina_solver"
version = "0.2.0"
edition = "2021"
publish = false

[dependencies]
clap = { version = "4", features = ["derive"] }
rand = "0.9"
rayon = "1"
serde = { version = "1", features = ["derive"] }
serde_yaml = "0.9"
