[package]
name = "panic_reach"
version = "0.1.0"
edition = "2021"
publish = false

[dependencies]
z3 = "=0.21.1"
inkwell = { version = "=0.10.0", features = ["llvm14-0-force-dynamic"] }
rustc-demangle = "=0.1.28"
tracing = "=0.1.44"
