[package]
name = "oxvg"
version = "0.1.0"
edition = "2021"
publish = false

[dependencies]
regex = "=1.13.1"
serde = { version = "=1.0.229", features = ["derive"] }
serde_json = "=1.0.154"
xml5ever = "=0.39.0"
markup5ever = "=0.39.0"
markup5ever_rcdom = "=0.39.0"
lightningcss = { version = "=1.0.0-alpha.72", default-features = false }
miette = "=7.6.0"
extism-pdk = "=1.4.1"
