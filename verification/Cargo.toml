[package]
name = "xiangxue"
version = "0.1.0"
edition = "2021"
publish = false

[dependencies]
slab = "0.4"
html5ever = "0.35"
lightningcss = { version = "1.0.0-alpha.72", features = ["into_owned"] }
parcel_selectors = "0.28"
static-self = "*"
taffy = "0.9"
serde = { version = "1", features = ["derive"] }
toml = "0.9"
