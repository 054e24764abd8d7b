[package]
name = "conflict"
version = "0.1.0"
edition = "2021"
publish = false

[dependencies]
clap = { version = "4", features = ["derive"] }
dashmap = "6"
guppy = "*"
miette = { version = "7", features = ["fancy"] }
owo-colors = "4"
serde = { version = "1", features = ["derive"] }
termtree = "*"
thiserror = "*"
toml = "*"
toml_edit = "*"
