[package]
name = "rucycle"
version = "0.1.0"
edition = "2021"
publish = false

[dependencies]
anyhow = "1"
chrono = "0.4"
clap = { version = "4", features = ["derive"] }
crossterm = "0.28"
ignore = "0.4"
ratatui = "0.29"
rayon = "1"
sysinfo = "0.33"
toml = "0.8"
