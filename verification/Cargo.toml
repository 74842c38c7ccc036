[package]
name = "lr_tree"
version = "0.1.0"
edition = "2021"
publish = false

[dependencies]
num = "=0.4.3"
petgraph = "=0.8.3"
log = "=0.4.34"
