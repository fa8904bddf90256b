[package]
name = "postgres_query"
version = "0.3.0"
edition = "2021"
publish = false

[dependencies]
tokio-postgres = "0.7"
postgres-types = "0.2"
futures = "0.3"
async-trait = "0.1"
thiserror = "1"
deadpool-postgres = "*"

[dev-dependencies]
bytes = "1"
