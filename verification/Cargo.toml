[package]
name = "mathematica_notebook_filter"
version = "0.2.0"
edition = "2021"
publish = false

[dependencies]
atty = "0.2"
clap = "2"
env_logger = "0.4"
log = "0.3"
tempfile = "3"
