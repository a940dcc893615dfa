[package]
name = "tree_magic"
version = "0.1.0"
edition = "2021"
publish = false

[dependencies]
clap = "2"
num_cpus = "1"
scoped_threadpool = "0.1"
tabwriter = "1"
walkdir = "2"
