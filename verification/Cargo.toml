[package]
name = "voxquant"
version = "0.5.0"
edition = "2021"
publish = false

[dependencies]
quantette = "*"
dot_vox = "5"
glam = "*"
gltf = { version = "1", features = ["import", "utils", "names", "KHR_materials_pbrSpecularGlossiness", "KHR_materials_emissive_strength"] }
image = { version = "0.25", default-features = false, features = ["png", "jpeg"] }
bytemuck = "1"
rayon = "1"
clap = { version = "4", features = ["derive"] }
thiserror = "2"
anyhow = "1"
profiling = "1"
