[package]
name = "file_dedup"
version = "0.1.0"
edition = "2021"
publish = false

[dependencies]
anyhow = "*"
csv = "*"
md-5 = "*"
num-format = "*"
regex = "*"
serde = { version = "*", features = ["derive"] }
serde_json = "*"
sha1 = "*"
sha2 = "*"
size_format = "*"
structopt = "*"
