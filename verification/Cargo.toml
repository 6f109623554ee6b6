[package]
name = "instrument"
version = "0.1.0"
edition = "2021"
publish = false

[dependencies]
json = "0.12"
lazy_static = "1"
thread-id = "*"
time = "0.3"
winapi = { version = "0.3", features = ["profileapi", "winnt"] }
