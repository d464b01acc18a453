[package]
name = "go_rules"
version = "0.1.0"
edition = "2021"
publish = false

[dependencies]
bitmaps = "=2.1.0"
typenum = "=1.20.1"
tinyvec = { version = "=1.13.3", features = ["alloc"] }
itertools = "=0.10.5"
serde = { version = "=1.0.229", features = ["derive"] }
yew = "=0.17.4"
yewtil = "=0.3.2"
