[package]
name = "tcloc"
version = "0.1.0"
edition = "2021"
publish = false

[dependencies]
clap = { version = "4", features = ["derive"] }
crossterm = "*"
font8x8 = "0.3"
hashbrown = "*"
ignore = "0.4"
memchr = "2"
notify = "*"
notify-debouncer-full = "*"
smelt-perf = "*"
smelt-term = "*"
