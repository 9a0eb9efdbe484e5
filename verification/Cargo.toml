[package]
name = "decoder"
version = "0.1.0"
edition = "2021"
publish = false

[dependencies]
regex = "1"
textwrap = "0.16"
goblin = "*"
serde = { version = "1", features = ["derive"] }
serde_json = "1"
bevy_reflect = "*"
indicatif = "0.17"
