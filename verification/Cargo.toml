[package]
name = "architect"
version = "0.1.0"
edition = "2021"
publish = false

[dependencies]
git2 = { version = "*", default-features = false }
chrono = "*"
lazysort = "*"
csv = "0.15"
rustc-serialize = "0.3"
ansi_term = "*"
crossbeam = "*"
num_cpus = "*"
time = "0.1"
regex = "*"
qml = "*"
qmlrs = "*"
