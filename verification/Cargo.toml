[package]
name = "wake_word_ml"
version = "0.1.0"
edition = "2021"
publish = false

[dependencies]
rand = "=0.10.3"
rand_chacha = "=0.10.0"
hound = "=3.5.1"
rustfft = "=6.4.1"
cpal = "*"
