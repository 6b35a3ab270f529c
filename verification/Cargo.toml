[package]
name = "floppy_disk"
version = "0.1.0"
edition = "2021"
publish = false

[dependencies]
async-trait = "0.1"
libc = "0.2"
tokio = { version = "1", features = ["fs", "io-util", "rt", "sync"] }
tracing = "0.1"

[dev-dependencies]
rsfs-tokio = "*"
