[package]
name = "tonks"
version = "0.1.0"
edition = "2021"
publish = false

[dependencies]
hashbrown = "0.7"
bit-set = "0.5"
smallvec = "1"
crossbeam = "0.7"
rayon = "1"
thread_local = "1"
bumpalo = "3"
legion = "0.2"
lazy_static = "1"
parking_lot = "0.10"
mopa = "0.2"
inventory = "0.1"
derivative = "2"
arrayvec = "0.5"
