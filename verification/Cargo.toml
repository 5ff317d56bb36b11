[package]
name = "geoserv"
version = "0.1.0"
edition = "2021"
publish = false

[dependencies]
actix-cors = "*"
actix-web = "*"
anyhow = "*"
argh = "*"
env_logger = "*"
geojson = "*"
glob = "*"
log = "*"
serde = { version = "*", features = ["derive"] }
serde_json = "*"
