[package]
name = "wordfreak"
version = "0.1.0"
edition = "2021"
publish = false

[dependencies]
piz = "*"
memmap = "*"
crossbeam = "*"
crossbeam-channel = "*"
argh = "*"
arrow2 = { version = "*", default-features = false, features = ["io_parquet"] }
