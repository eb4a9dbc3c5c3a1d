[package]
name = "hyperion"
version = "0.1.0"
edition = "2021"
publish = false

[dependencies]
blake3 = { version = "=1.8.7", default-features = false, features = ["pure"] }
rand = { version = "=0.8.8", default-features = false }
rand_chacha = { version = "=0.3.1", default-features = false }
x86_64 = { version = "=0.15.5", default-features = false, features = ["instructions"] }
spin = "=0.9.9"
elf = { version = "=0.7.4", default-features = false }
ringbuf = "0.3"
