[package]
name = "conjure"
version = "0.1.0"
edition = "2021"
publish = false

[dependencies]
clap = { version = "=4.6.7", features = ["derive"] }
git2 = { version = "=0.21.0", features = ["https", "ssh", "vendored-libgit2", "vendored-openssl"] }
indicatif = { version = "=0.18.6", features = ["rayon"] }
kdl = { version = "=6.7.1", features = ["serde"] }
miette = { version = "=7.6.0", features = ["fancy"] }
owo-colors = "=4.4.0"
rayon = "=1.12.0"
serde = { version = "=1.0.229", features = ["derive"] }
serde_json = "=1.0.154"
thiserror = "=2.0.21"
