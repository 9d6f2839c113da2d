[package]
name = "graphql_resolve"
version = "0.1.0"
edition = "2021"
publish = false

[dependencies]
graphql-parser = "=0.4.1"
itertools = "=0.15.0"
serde_json = "=1.0.154"
