[package]
name = "osm_admin_lookup"
version = "0.1.0"
edition = "2021"
publish = false

[dependencies]
actix-web = "=4.15.0"
tokio = { version = "=1.53.2", features = ["rt-multi-thread", "macros"] }
serde = { version = "=1.0.229", features = ["derive"] }
serde_json = "=1.0.151"
structopt = "=0.3.26"
osmpbfreader = "=0.16.1"
osm_boundaries_utils = "=0.12.0"
geo-types = "=0.7.20"
rayon = "=1.12.0"
futures-util = "=0.3.34"
