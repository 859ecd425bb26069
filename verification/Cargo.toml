[package]
name = "pidtree_mon"
version = "0.1.0"
edition = "2021"
publish = false

[dependencies]
clap = { version = "4", features = ["derive"] }
env_logger = "*"
futures = "0.3"
libc = "0.2"
log = "0.4"
num_cpus = "1"
procfs = "*"
tokio = { version = "1", features = ["io-util", "net", "rt", "sync", "time", "macros"] }
with_daemon = "*"
