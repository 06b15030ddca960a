[package]
name = "china_operator_ip"
version = "0.1.0"
edition = "2021"
publish = false

[dependencies]
bgpkit-parser = "*"
bincode = "1"
clap = { version = "4", features = ["derive"] }
ipnet = "2"
iprange = "*"
prefix-trie = "*"
rayon = "1"
serde = { version = "1", features = ["derive"] }
smallvec = "1"
vec-collections = "*"
