[package]
name = "dublette"
version = "0.5.1"
edition = "2021"
publish = false

[dependencies]
clap = { version = "4", features = ["derive"] }
color-eyre = "*"
ctrlc = "*"
dialoguer = "*"
eyre = "*"
image = "0.23"
img_hash = "3.2"
indicatif = "*"
lofty = "*"
rayon = "*"
rusty-chromaprint = "*"
serde_json = "*"
tabled = "*"
tempfile = "*"
walkdir = "*"
which = "*"

[dev-dependencies]
