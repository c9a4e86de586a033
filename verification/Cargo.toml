[package]
name = "codetracer_ton_recorder"
version = "0.1.0"
edition = "2021"
publish = false

[dependencies]
tycho-vm = "0.3"
clap = { version = "4", features = ["derive"] }
eyre = "0.6"
codetracer_trace_types = "*"
codetracer_trace_writer = "*"
