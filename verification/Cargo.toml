[package]
name = "rust_orderbook"
version = "0.1.0"
edition = "2021"
publish = false

[dependencies]
chrono = "=0.4.45"
serde = { version = "=1.0.229", features = ["derive"] }
rust_decimal = "=1.43.0"
rust_decimal_macros = "=1.40.0"
cc-traits = "=1.0.0"
pyo3 = "=0.18.3"
tokio = { version = "=1.54.1", default-features = false, features = ["macros", "rt-multi-thread", "signal", "sync"] }
futures = "=0.3.34"
uuid = { version = "=1.29.0", features = ["v4"] }
colored = "=2.2.0"
parking_lot = "=0.12.5"

[dev-dependencies]
rand = "=0.8.8"
