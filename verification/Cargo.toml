[package]
name = "entro_gd"
version = "0.1.0"
edition = "2021"
publish = false

[dependencies]
bitvec = "=1.1.1"
fxhash = "=0.2.1"
rayon = "=1.12.0"
image = { version = "=0.25.10", default-features = false, features = ["png", "jpeg", "bmp", "gif", "tiff", "webp"] }
polars = { version = "=0.55.2", default-features = false, features = ["csv", "dtype-i8", "dtype-i16", "dtype-u8", "dtype-u16", "fmt"] }
serde = { version = "=1.0.229", features = ["derive"] }
serde_json = "=1.0.154"
tracing = "=0.1.44"
tracing-appender = "=0.2.5"
tracing-subscriber = { version = "=0.3.23", features = ["env-filter"] }
chrono = "=0.4.45"
