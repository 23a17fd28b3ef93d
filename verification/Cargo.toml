[package]
name = "info_radiator"
version = "0.1.0"
edition = "2021"
publish = false

[dependencies]
chrono = "0.4"
chrono-tz = "*"
rrule = "*"
resvg = "*"
minreq = { version = "2", features = ["https"] }
serde = { version = "1", features = ["derive"] }
serde_json = "1"
toml = "*"
libc = "0.2"
