[package]
name = "tf_idf"
version = "0.1.0"
edition = "2021"
publish = false

[dependencies]
memmap2 = "0.9"
mimalloc = "0.1"
pathdiff = "0.2"
rayon = "1"
rkyv = "0.8"
