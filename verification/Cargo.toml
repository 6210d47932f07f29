[package]
name = "bus_spotting"
version = "0.1.0"
edition = "2021"
publish = false

[dependencies]
anyhow = "1.0.104"
chrono = "0.4.45"
csv = "1.4.0"
geojson = "0.24.2"
log = "0.4.35"
serde = { version = "1.0.229", features = ["derive"] }
serde_json = "1.0.154"
serde_repr = "0.1.21"
zip = { version = "7.0.0", default-features = false, features = ["deflate"] }
