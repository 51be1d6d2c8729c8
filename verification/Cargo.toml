[package]
name = "data_pipeline"
version = "0.1.0"
edition = "2021"
publish = false

[dependencies]
regex = "*"
log = "*"
clap = { version = "*", features = ["derive"] }
dotenv = "*"
indicatif = "*"
mail-parser = "*"
neo4rs = "*"
polars = { version = "*", default-features = false, features = ["lazy", "csv"] }
tokio = { version = "*", features = ["rt-multi-thread", "macros"] }
