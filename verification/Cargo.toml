[package]
name = "espmonitor"
version = "0.1.0"
edition = "2021"
publish = false

[dependencies]
addr2line = "*"
crossterm = "*"
gimli = "*"
object = "*"
regex = "1"

[dev-dependencies]
gimli = { version = "*", features = ["write"] }
object = { version = "*", features = ["write"] }
