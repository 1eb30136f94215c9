[package]
name = "sharebill"
version = "0.1.0"
edition = "2021"
publish = false

[dependencies]
num = "=0.4.3"
actix-files = "=0.6.10"
actix-web = "=4.18.1"
chrono = { version = "=0.4.45", features = ["serde"] }
chrono-humanize = "=0.2.3"
diesel = { version = "=2.3.14", features = ["sqlite", "r2d2", "chrono", "returning_clauses_for_sqlite_3_35"] }
futures = "=0.3.34"
id30 = "=1.0.0"
rand = "=0.8.8"
serde = { version = "=1.0.229", features = ["derive"] }
serde_json = "=1.0.154"
thiserror = "=1.0.69"
