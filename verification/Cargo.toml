[package]
name = "lexicon_docx"
version = "0.1.0"
edition = "2021"
publish = false

[dependencies]
comrak = { version = "*", default-features = false }
regex = "1"
serde = { version = "1", features = ["derive"] }
serde_yaml = "0.9"
serde_json = "1"
chrono = "0.4"
toml = "*"
clap = { version = "4", features = ["derive"] }
clap_mangen = "*"
docx-rs = "*"
image = { version = "*", default-features = false, features = ["png", "jpeg"] }
zip = { version = "*", default-features = false, features = ["deflate"] }
tempfile = "3"
thiserror = "*"
