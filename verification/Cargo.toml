[package]
name = "frame_graph"
version = "0.1.0"
edition = "2021"
publish = false

[dependencies]
ash = "0.38"
gpu-allocator = { version = "0.27", default-features = false, features = ["vulkan"] }
log = "0.4"
slotmap = "1.0"
