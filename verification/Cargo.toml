[package]
name = "rim_sim"
version = "0.1.0"
edition = "2021"
publish = false

[dependencies]
hecs = { version = "*", features = ["serde"] }
serde = { version = "1", features = ["derive"] }
serde_json = "1"
serde_path_to_error = "*"
toml = "*"
rmp-serde = "*"
zstd = "*"
libm = "*"
mlua = { version = "*", features = ["luau"] }
