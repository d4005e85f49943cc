[package]
name = "face_validator"
version = "0.1.0"
edition = "2021"
publish = false

[dependencies]
dashmap = "5"
lru = "0.12"
actix-web = "4"
actix-multipart = "0.6"
base64 = "0.21"
futures-util = "0.3"
image = "0.24"
ndarray = "0.15"
nalgebra = "0.32"
num_cpus = "1"
ort = { version = "=2.0.0-rc.13", default-features = false, features = ["std", "ndarray", "alternative-backend", "api-27"] }
parking_lot = "0.12"
rayon = "1"
serde = { version = "1", features = ["derive"] }
serde_json = "1"
thiserror = "1"
tokio = { version = "1", features = ["full"] }
env_logger = "0.10"

[dev-dependencies]
dbscan = "0.3"
