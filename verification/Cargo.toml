[package]
name = "melscan"
version = "0.1.0"
edition = "2021"
publish = false

[dependencies]
hex = "=0.4.3"
anyhow = "1"
chrono = { version = "=0.4.45", default-features = false, features = ["std", "serde", "clock"] }
futures-util = "0.3"
log = "0.4"
melstructs = "=0.3.3"
once_cell = "1"
serde = { version = "1", features = ["derive"] }
serde_json = "1"
smol = "=1.3.0"
stdcode = "=0.1.14"
tmelcrypt = "=0.2.7"
