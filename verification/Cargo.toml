[package]
name = "race_poker"
version = "0.1.0"
edition = "2021"
publish = false

[dependencies]
borsh = "=0.9.3"
race-api = "=0.2.6"
