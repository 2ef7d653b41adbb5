[package]
name = "segment_accountant"
version = "0.1.0"
edition = "2021"
publish = false

[dependencies]
coco = "*"
