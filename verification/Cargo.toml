[package]
name = "marshal_engine"
version = "0.1.0"
edition = "2021"
publish = false

[dependencies]
chrono = { version = "0.4", default-features = false, features = ["std"] }
futures = "0.1"
futures-cpupool = "0.1"
globset = "0.4"
memmap = "0.5"
