[package]
name = "pluto_layers"
version = "0.1.0"
edition = "2021"

[dependencies]
cgmath = "0.18"
