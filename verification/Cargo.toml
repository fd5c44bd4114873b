[package]
name = "fixed_price_sale"
version = "0.1.0"
edition = "2021"
publish = false

[dependencies]
scrypto = "1"
