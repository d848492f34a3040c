[package]
name = "kd_index"
version = "0.1.0"
edition = "2021"
publish = false

[dependencies]
rand = "0.8"
serde = { version = "1", features = ["derive"] }
serde_derive = "1"
serde_json = "1"
fs_extra = "1"
regex = "1"
ndarray = "*"
ndarray-linalg = "*"
num-complex = "*"
plotlib = "*"
argmin = "*"
sparse21 = "*"
