[package]
name = "mh1tool"
version = "0.1.0"
edition = "2021"
publish = false

[dependencies]
anyhow = "=1.0.104"
bytemuck = { version = "=1.25.2", features = ["derive"] }
byteorder = "=1.5.0"
clap = { version = "=4.6.7", features = ["derive"] }
gltf-json = { version = "=1.4.1", features = ["names"] }
image = { version = "=0.25.10", default-features = false, features = ["png"] }
serde_json = "=1.0.154"
