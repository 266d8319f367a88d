[package]
name = "crc_check"
version = "0.1.0"
edition = "2021"
publish = false

[dependencies]
crc32fast = "*"
threadpool = "*"
num_cpus = "*"
crossbeam-utils = "*"
colored = "*"
