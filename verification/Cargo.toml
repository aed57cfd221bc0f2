[package]
name = "pi_dates"
version = "0.1.0"
edition = "2021"
publish = false

[dependencies]
memmap = "0.7"
rayon = "1"
chrono = { version = "0.4", default-features = false }
serde_json = "1"
