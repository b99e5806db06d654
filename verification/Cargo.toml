[package]
name = "tempmon"
version = "0.1.0"
edition = "2021"
publish = false

[dependencies]
gethostname = "*"
rand = "0.8"
clap = { version = "4", features = ["derive"] }
rumqttc = "*"
