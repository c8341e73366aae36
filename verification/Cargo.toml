[package]
name = "maze_library"
version = "0.1.0"
edition = "2021"
publish = false

[dependencies]
rand = "0.9"
union-find = "*"
serde = { version = "1", features = ["derive"] }
serde_json = "1"
clap = { version = "4", features = ["derive"] }
log = "0.4"
env_logger = "0.11"
regex = "1"
strum = "*"
strum_macros = "*"
num-traits = "0.2"
macroquad = { version = "0.4", default-features = false }
