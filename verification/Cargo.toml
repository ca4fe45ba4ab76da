[package]
name = "r_descent"
version = "0.1.0"
edition = "2021"
publish = false

[dependencies]
rand = "0.9"
ndarray = { version = "0.16", features = ["serde"] }
rayon = "1"
serde = { version = "1", features = ["derive"] }
anyhow = "1"
clap = { version = "4", features = ["derive"] }
half = "2"
hdf5 = "0.8"
log = "0.4"
pretty_env_logger = "0.5"
