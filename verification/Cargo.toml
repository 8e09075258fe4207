[package]
name = "password_crack"
version = "0.1.0"
edition = "2021"
publish = false

[dependencies]
infer = "=0.22.0"
pbkdf2 = "=0.11.0"
hmac = "=0.12.1"
sha1 = "=0.10.7"
zip = { version = "=0.6.6", default-features = false, features = ["deflate", "aes-crypto"] }
sevenz-rust = { version = "=0.6.1", features = ["aes256"] }
unrar = "=0.5.8"
crossbeam-channel = "=0.5.17"
num_cpus = "=1.17.0"
clap = "=4.6.7"
