[package]
name = "chunking_core"
version = "0.1.0"
edition = "2021"
publish = false

[dependencies]
anyhow = "=1.0.104"
async-trait = "=0.1.92"
git2 = { version = "=0.16.1", default-features = false }
path-slash = "=0.2.1"
serde = { version = "=1.0.229", features = ["derive"] }
thiserror = "=1.0.69"

[dev-dependencies]
nom = "=7.1.3"
