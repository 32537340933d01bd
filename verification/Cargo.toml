[package]
name = "blind_token"
version = "0.1.0"
edition = "2021"
publish = false

[dependencies]
rust-argon2 = "=3.0.0"
base64 = "=0.23.1"
num-bigint = "=0.4.8"
num-modular = "=0.6.1"
num-prime = "=0.6.1"
sha2 = "=0.11.0"
wasm-bindgen = "=0.2.129"
console_error_panic_hook = "=0.1.7"
