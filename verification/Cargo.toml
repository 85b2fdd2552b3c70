[package]
name = "clickhouse-usage-collector-plugin"
version = "0.1.0"
edition = "2021"
publish = false

[dependencies]
async-trait = "=0.1.92"
bigdecimal = "=0.4.11"
futures = "=0.3.34"
rust_decimal = "=1.43.0"
sea-clickhouse = { version = "=0.15.0", features = ["sea-ql", "uuid", "time", "chrono", "rust_decimal"] }
sea-query = { version = "=1.0.0-rc.34", features = ["with-chrono", "with-rust_decimal", "with-time", "with-uuid"] }
sea-query-clickhouse = "=0.1.4"
serde = { version = "=1.0.229", features = ["derive"] }
serde_json = "1"
serde_repr = "=0.1.21"
time = { version = "=0.3.55", features = ["formatting", "parsing"] }
tracing = "=0.1.44"
uuid = "=1.29.0"
