[package]
name = "concurrent_proposers"
version = "0.1.0"
edition = "2021"
publish = false

[dependencies]
alloy-primitives = "=1.7.3"
itertools = "=0.14.0"
revm = { version = "=31.0.2", default-features = false, features = ["std", "optional_balance_check", "optional_block_gas_limit", "optional_no_base_fee"] }
parking_lot = "=0.12.5"
serde = { version = "=1.0.229", features = ["derive"] }
revm-inspectors = { version = "=0.32.0", default-features = false, features = ["std"] }
alloy-evm = { version = "=0.23.3", default-features = false, features = ["std"] }
alloy-eips = { version = "=1.8.3", default-features = false, features = ["std"] }
