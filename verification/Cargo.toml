[package]
name = "git-core"
version = "0.1.0"
edition = "2021"
publish = false

[dependencies]
git2 = { version = "0.20", default-features = false }
libc = "0.2"
serde = { version = "1", features = ["derive"] }
serde_json = "1"
thiserror = "2"
which = "7"
