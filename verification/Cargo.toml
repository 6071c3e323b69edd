[package]
name = "reco"
version = "0.1.0"
edition = "2021"
publish = false

[dependencies]
anyhow = "1"
argmin = { version = "*", default-features = false }
argmin-math = { version = "*", default-features = false, features = ["vec"] }
base64 = "0.22"
bytemuck = { version = "1", features = ["derive"] }
clap = { version = "4", features = ["derive"] }
ctrlc = "3"
dirs = "*"
image = { version = "0.25", default-features = false, features = ["png"] }
libloading = "*"
log = "0.4"
nalgebra = "*"
open = "*"
rayon = "1"
serde = { version = "1", features = ["derive"] }
serde_json = "1"
thiserror = "2"
tracing = "0.1"
tracing-chrome = "*"
tracing-log = "*"
tracing-subscriber = { version = "0.3", features = ["env-filter"] }
wgpu = "28"
