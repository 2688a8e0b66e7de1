[package]
name = "plkokoro"
version = "0.1.0"
edition = "2021"
publish = false

[dependencies]
regex = "1"
serde = { version = "1", features = ["derive"] }
serde_json = "1"
ureq = "3"
log = "0.4"
clap = { version = "4", features = ["derive"] }
ctrlc = "3"
ort = { version = "2.0.0-rc.10", default-features = false, features = ["load-dynamic"] }
