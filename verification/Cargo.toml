[package]
name = "osm2streets"
version = "0.1.0"
edition = "2021"
publish = false

[dependencies]
geom = "=0.2.3"
geo = "=0.33.1"
geojson = "=1.0.0"
aabb-quadtree = "=0.2.0"
serde = { version = "=1.0.229", features = ["derive"] }
serde_json = "=1.0.154"
anyhow = "=1.0.104"
log = "=0.4.35"
enumset = "=1.1.15"
enum-map = "=2.7.3"
itertools = "=0.14.0"
env_logger = "=0.11.11"
chrono = "=0.4.45"
