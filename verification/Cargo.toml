[package]
name = "user_lib"
version = "0.1.0"
edition = "2021"
publish = false

[dependencies]
tg-syscall = { version = "=0.4.2-preview.1", features = ["user"] }
tg-console = "=0.4.2-preview.1"
