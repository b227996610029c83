[package]
name = "gearbox"
version = "0.1.0"
edition = "2021"
publish = false

[dependencies]
bit-vec = "=0.4.4"
byteorder = "=1.5.0"
bytes = "=0.2.11"
env_logger = "=0.3.5"
hyper = { version = "=0.6.16", default-features = false }
log = "=0.3.9"
mio = "0.6"
rand = "=0.3.23"
rust-crypto = "=0.2.36"
rustbox = "0.7"
slab = "=0.1.3"
url = "=0.2.38"
