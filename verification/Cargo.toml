[package]
name = "passcualito"
version = "0.1.0"
edition = "2021"
publish = false

[dependencies]
aes-gcm = "0.10"
argon2 = "0.5"
rand = "0.9"
rand_core = "0.6"
serde = { version = "1", features = ["derive"] }
serde_json = "1"
clap = { version = "4", features = ["derive"] }
dirs = "*"
rpassword = "*"
anyhow = "1"
