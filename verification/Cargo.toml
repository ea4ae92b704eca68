[package]
name = "nsga_selection"
version = "0.1.0"
edition = "2021"
publish = false

[dependencies]
non-dominated-sort = "=0.2.0"
