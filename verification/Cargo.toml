[package]
name = "topo_reconstruct"
version = "0.1.0"
edition = "2021"
publish = false

[dependencies]
clap = { version = "4", features = ["derive"] }
fast-float = "0.2"
geo = "0.28"
glam = "0.29"
hashbrown = "0.15"
memmap2 = "0.9"
rayon = "1"
serde = { version = "1", features = ["derive"] }
serde_json = "1"
spade = "2"
