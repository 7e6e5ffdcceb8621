[package]
name = "audio_scripting"
version = "0.1.0"
edition = "2021"
publish = false

[dependencies]
anyhow = "1"
cpal = "0.16"
crossbeam-channel = "0.5"
hound = "3.5"
ringbuf = "0.4"
rubato = "0.16"
