[package]
name = "coupon_collect"
version = "0.1.0"
edition = "2021"
publish = false

[dependencies]
num = "*"
