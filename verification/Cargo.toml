[package]
name = "pleep"
version = "0.1.0"
edition = "2021"
publish = false

[dependencies]
clap = { version = "4", features = ["derive"] }
crossbeam = "0.8"
image = { version = "0.25", default-features = false, features = ["png"] }
num-complex = "0.4"
num-traits = "0.2"
rayon = "1"
rubato = "0.14"
rustfft = "6"
serde = { version = "1", features = ["derive"] }
serde_json = "1"
symphonia = "0.5"
thiserror = "1"
tracing = "0.1"
tracing-subscriber = { version = "0.3", features = ["env-filter"] }
