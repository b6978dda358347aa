[package]
name = "netext_core"
version = "0.1.0"
edition = "2021"
publish = false

[dependencies]
rand = "0.8"
rstar = "0.12"
hashbrown = "0.15"
serde_json = "1"
pyo3 = "0.22"
