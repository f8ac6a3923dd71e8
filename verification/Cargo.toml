[package]
name = "cube_split"
version = "0.1.0"
edition = "2021"
publish = false

[dependencies]
serde_json = "*"
clap = { version = "*", features = ["derive"] }
rayon = "*"
nix = { version = "*", features = ["signal"] }
wait-timeout = "*"
is_executable = "*"
sysinfo = "*"

[dev-dependencies]
rand = "*"
