[package]
name = "nulloc"
version = "0.1.0"
edition = "2021"
publish = false

[dependencies]
errno = "0.3"
lazy_static = "1"
libc = "0.2"
num_cpus = "1"
parking_lot = "0.12"
regex = "1"
seahash = "4"
smallvec = "1"
sys-info = "0.9"
