[package]
name = "plan_canon"
version = "0.1.0"
edition = "2021"
publish = false

[dependencies]
binary-ensemble = "=1.0.0"
clap = "=4.6.7"
