[package]
name = "rkyv_wrappers"
version = "0.1.0"
edition = "2021"
publish = false

[dependencies]
rkyv = { version = "0.7", features = ["validation"] }
bitvec = "1"
bytecheck = "0.6"
