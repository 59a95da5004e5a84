[package]
name = "distortion_pedal"
version = "0.1.0"
edition = "2021"
publish = false

[dependencies]
ringbuf = "=0.4.8"
rustfft = "6"
cpal = "0.15"
egui = "0.29"
