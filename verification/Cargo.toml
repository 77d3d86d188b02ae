[package]
name = "pitch_detection"
version = "0.1.0"
edition = "2021"
publish = false

[dependencies]
cpal = "*"
ringbuf = "*"
rustfft = "*"
