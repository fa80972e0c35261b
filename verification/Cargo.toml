[package]
name = "safe_farming"
version = "0.1.0"
edition = "2021"
publish = false

[dependencies]
safe-nd = "=0.11.7"
threshold_crypto = "=0.4.0"
rand = "=0.7.3"
rayon = "=1.12.0"
crdts = "=4.3.0"
