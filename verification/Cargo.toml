[package]
name = "prophet_tb"
version = "0.1.0"
edition = "2021"
publish = false

[dependencies]
arbitrary = { version = "=1.5.0", features = ["derive"] }
arrayvec = "=0.7.8"
gaviota-sys = "=0.1.28"
libfuzzer-sys = "=0.4.13"
shakmaty = "=0.27.3"
