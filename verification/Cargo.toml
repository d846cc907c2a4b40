[package]
name = "guitar_midi_tracker"
version = "0.1.0"
edition = "2021"
publish = false

[dependencies]
realfft = "*"
num-complex = "*"
