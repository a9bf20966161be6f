[package]
name = "osa_edit"
version = "0.1.0"
edition = "2021"

[dependencies]
grid = "=0.9.0"
