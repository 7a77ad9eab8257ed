[package]
name = "netflix_prize"
version = "0.1.0"
edition = "2021"
publish = false

[dependencies]
flate2 = "=1.1.10"
indexmap = { version = "=2.14.2", features = ["serde"] }
lightgbm3 = "=1.0.11"
md5 = "=0.8.1"
minreq = { version = "=2.14.1", features = ["https-rustls"] }
nalgebra = "=0.35.0"
ndarray = "=0.16.1"
ndarray-npy = "=0.9.1"
rand = "=0.9.5"
rand_distr = "=0.5.1"
rayon = "=1.12.0"
serde = { version = "=1.0.229", features = ["derive"] }
serde_json = "=1.0.154"
tar = "=0.4.46"
toml = "=0.8.23"
toml_edit = "=0.22.27"
