[package]
name = "rcpsp"
version = "0.1.0"
edition = "2021"
publish = false

[dependencies]
petgraph = "0.6"
rand = "0.8"
num_cpus = "1"
log = "0.4"
env_logger = "0.9"
anyhow = "1"
thiserror = "1"
chumsky = "0.8"
clap = { version = "3", features = ["derive", "env"] }
clap-verbosity-flag = "1"
serde = { version = "1", features = ["derive"] }
serde_json = "1"
