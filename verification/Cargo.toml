[package]
name = "two_phase_interner"
version = "0.1.0"
edition = "2021"
publish = false

[dependencies]
leb128 = "0.2"
