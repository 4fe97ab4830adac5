[package]
name = "kaku"
version = "0.1.0"
edition = "2021"
publish = false

[dependencies]
ab_glyph = "0.2"
ahash = "0.8"
bytemuck = { version = "1", features = ["derive"] }
image = { version = "0.25", default-features = false }
itertools = "0.13"
log = "0.4"
priority-queue = "2"
rayon = "1"
wgpu = "0.20"
