[package]
name = "landmass"
version = "0.1.0"
edition = "2021"
publish = false

[dependencies]
slotmap = "1"
glam = "0.27"
thiserror = "1"
bevy = { version = "0.14", default-features = false, features = ["bevy_asset"] }
