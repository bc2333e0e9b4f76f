[package]
name = "cascade"
version = "0.1.0"
edition = "2021"
publish = false

[dependencies]
bincode = "1"
byteorder = "1"
fixedbitset = "0.5"
fxhash = "0.2"
generational-arena = "0.2"
interval-heap = "*"
itertools = "0.13"
morton = "*"
ordered-float = "4"
rocksdb = "*"
serde = { version = "1", features = ["derive"] }
smallvec = { version = "1", features = ["serde"] }
static-bushes = "*"
