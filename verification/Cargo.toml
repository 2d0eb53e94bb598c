[package]
name = "cortex_browser_env"
version = "0.1.0"
edition = "2021"
publish = false

[dependencies]
fontdue = "*"
png = "*"
raqote = { version = "*", default-features = false }
