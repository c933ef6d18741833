[package]
name = "sprite_atlas"
version = "0.1.0"
edition = "2021"
publish = false

[dependencies]
clap = { version = "*", features = ["derive"] }
image = "*"
rayon = "*"
rusttype = "*"
walkdir = "*"

[dev-dependencies]
serde_json = "*"
