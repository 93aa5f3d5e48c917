[package]
name = "git_squad"
version = "0.1.0"
edition = "2021"
publish = false

[dependencies]
anyhow = "*"
clap = { version = "*", features = ["derive"] }
clap_complete = "*"
dirs = "*"
inquire = "*"
itertools = "*"
nonempty = "*"
num-bigint = "*"
num-traits = "*"
serde = { version = "*", features = ["derive"] }
serde_yaml = "*"
toml = "*"
