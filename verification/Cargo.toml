[package]
name = "gitanalyser"
version = "0.1.0"
edition = "2021"
publish = false

[dependencies]
chrono = { version = "0.4", default-features = false, features = ["std"] }
clap = { version = "4", features = ["derive"] }
color-eyre = "0.6"
git2 = { version = "*", default-features = false }
indicatif = "0.17"
nom = "7"
num_cpus = "1"
rayon = "1"
regex = "1"
serde = { version = "1", features = ["derive"] }
serde_json = "1"
