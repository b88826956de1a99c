[package]
name = "raytracer"
version = "0.1.0"
edition = "2021"
publish = false

[dependencies]
clap = { version = "=4.6.7", features = ["derive"] }
png = "=0.17.16"
quick-xml = "=0.37.5"
rand = "=0.8.8"
rayon = "=1.12.0"
threadpool = "=1.8.1"
threadpool_scope = "=0.1.0"

[dev-dependencies]
approx = "=0.5.1"
