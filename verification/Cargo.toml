[package]
name = "polars_engine"
version = "0.1.0"
edition = "2021"
publish = false

[dependencies]
polars-core = { version = "=0.46.0", default-features = false, features = ["dtype-struct", "dtype-categorical"] }
polars-expr = { version = "=0.46.0", default-features = false, features = ["dynamic_group_by", "dtype-struct", "dtype-categorical"] }
polars-plan = { version = "=0.46.0", default-features = false, features = ["csv", "ipc", "parquet", "json", "dynamic_group_by", "dtype-struct", "dtype-categorical"] }
polars-schema = { version = "=0.46.0", default-features = false }
