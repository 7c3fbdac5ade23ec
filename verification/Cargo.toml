[package]
name = "hexit"
version = "0.1.0"
edition = "2021"
publish = false

[dependencies]
clap = { version = "*", features = ["derive"] }
flate2 = "*"
geo-types = "*"
geojson = "*"
h3o = { version = "*", features = ["geo"] }
hextree = { version = "*", features = ["disktree"] }
rayon = "*"
serde_json = "*"

[dev-dependencies]
bincode = "1"
