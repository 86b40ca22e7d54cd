[package]
name = "agprefs"
version = "0.1.0"
edition = "2021"
publish = false

[dependencies]
memchr = "2"
cookie-factory = "0.3"
indexmap = "2"
serde = "1"
serde_json = "1"
clap = { version = "4", features = ["derive"] }
anyhow = "1"
thiserror = "1"
ariadne = "0.4"

[dev-dependencies]
nom = "7"
pretty_assertions = "1"
