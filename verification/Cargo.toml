[package]
name = "plonk-core"
version = "0.1.0"
edition = "2021"
publish = false

[dependencies]
ark-ff = "=0.3.0"
ark-ec = "=0.3.0"
ark-poly = "=0.3.0"
ark-poly-commit = "=0.3.0"
ark-serialize = { version = "=0.3.0", features = ["derive"] }
ark-marlin = "=0.3.0"
ark-bls12-381 = "=0.3.0"
blake2 = "=0.9.2"
derivative = "=2.2.0"

[dev-dependencies]
ark-std = "=0.3.0"
