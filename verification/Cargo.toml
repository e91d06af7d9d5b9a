[package]
name = "datapack_merger"
version = "0.1.0"
edition = "2021"
publish = false

[dependencies]
zip = { version = "*", default-features = false, features = ["deflate"] }
flate2 = "*"
tar = "*"
clap = "*"
colored = "*"
dialoguer = "*"
indicatif = "*"
rayon = "*"
