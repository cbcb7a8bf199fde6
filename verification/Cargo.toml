[package]
name = "whisper_with_vad"
version = "1.0.0"
edition = "2021"
publish = false

[dependencies]
srtlib = "=0.2.0"
clap = { version = "=4.6.7", features = ["derive"] }
log = "=0.4.34"
flexi_logger = "=0.31.10"
console = "=0.16.6"
indicatif = "=0.18.6"
ffmpeg-next = "=9.0.0"
whisper-rs = "=0.16.0"
vad-rs = "=0.1.5"
ort = "=2.0.0-rc.9"
