[package]
name = "odbc2parquet"
version = "0.1.0"
edition = "2021"
publish = false

[dependencies]
atoi = "*"
num-bigint = "*"
anyhow = "*"
log = "*"
parquet = "*"
odbc-api = "*"

[dev-dependencies]
chrono = "*"
