[package]
name = "blackjack"
version = "0.1.0"
edition = "2021"
publish = false

[dependencies]
rand = "*"
serde = { version = "1", features = ["derive"] }
bincode = "1"
ratatui = "0.29"

[dev-dependencies]
itertools = "0.13"
