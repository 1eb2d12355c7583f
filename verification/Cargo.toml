[package]
name = "darkroom_core"
version = "0.1.0"
edition = "2021"
publish = false

[dependencies]
image = { version = "=0.25.10", default-features = false, features = ["png", "jpeg"] }
pathfinding = "4"
roxmltree = "=0.21.2"
serde_json = "=1.0.154"
