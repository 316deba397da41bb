[package]
name = "advent"
version = "0.1.0"
edition = "2021"
publish = false

[dependencies]
anyhow = "1"
clap = { version = "4", features = ["derive"] }
dotenvy = "*"
foldhash = "*"
itertools = "*"
nalgebra = "*"
ndarray = "*"
nom = "8"
num = "0.4"
thiserror = "*"
tracing-subscriber = { version = "0.3", features = ["env-filter"] }
ureq = { version = "3", features = ["cookies"] }
z3 = "*"
