[package]
name = "motorsport_telemetry"
version = "0.1.0"
edition = "2021"
publish = false

[dependencies]
chrono = "0.4"
duckdb = { version = "1.10504", default-features = false, features = ["vtab-loadable", "vscalar", "loadable-extension"] }
duckdb-loadable-macros = "1.10504"
glob = "0.3"
memmap2 = "0.9"
thiserror = "2"
