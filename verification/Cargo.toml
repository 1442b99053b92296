[package]
name = "nettools"
version = "0.1.0"
edition = "2021"
publish = false

[dependencies]
ipnetwork = "*"
chrono = "*"
md5 = "*"
sha1 = "*"
sha2 = "*"
rand = "*"
serde_json = "*"
hostname = "*"
whoami = "*"
reqwest = { version = "*", default-features = false, features = ["blocking"] }
