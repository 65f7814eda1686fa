[package]
name = "atc_router"
version = "1.7.0"
edition = "2021"
publish = false

[dependencies]
regex = "=1.13.1"
regex-syntax = "=0.8.11"
cidr = "=0.2.3"
uuid = "=1.29.0"

[dev-dependencies]
winnow = "0.7"
