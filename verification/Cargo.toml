[package]
name = "meta_gen"
version = "0.1.0"
edition = "2021"
publish = false

[dependencies]
base64 = "*"
convert_case = "*"
syn = { version = "*", features = ["full", "parsing", "printing"] }
quote = "*"
proc-macro2 = "*"
walkdir = "*"
