[package]
name = "memprof"
version = "0.1.0"
edition = "2021"
publish = false

[dependencies]
chrono = "0.4"
dirs = "5"
nix = { version = "0.29", features = ["process"] }
plotters = { version = "0.3", default-features = false, features = ["svg_backend", "line_series"] }
signal-hook = "0.3"
