[package]
name = "uniswap_pools"
version = "0.1.0"
edition = "2021"
publish = false

[dependencies]
primitive-types = { version = "=0.12.2", default-features = false, features = ["std"] }
ink = { version = "=4.3.0", default-features = false, features = ["std"] }
psp22 = { version = "=1.0.0", default-features = false, features = ["std"] }
parity-scale-codec = { version = "=3.7.5", default-features = false, features = ["std", "derive"] }
scale-info = { version = "=2.11.6", default-features = false, features = ["std", "derive"] }
