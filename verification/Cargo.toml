[package]
name = "csv_records"
version = "0.1.0"
edition = "2021"
publish = false

[dependencies]
arrow-array = { version = "*", default-features = false }
arrow-schema = { version = "*", default-features = false }
csv-core = "0.1"
twox-hash = { version = "2", default-features = false, features = ["xxhash64"] }
