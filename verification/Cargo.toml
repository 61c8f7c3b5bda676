[package]
name = "first_sort"
version = "0.1.0"
edition = "2021"
publish = false

[dependencies]
clap = "*"
crossbeam = "*"
itertools = "*"
num = "*"
parking_lot = "*"
