[package]
name = "ws_gateway"
version = "0.1.0"
edition = "2021"
publish = false

[dependencies]
bson = "*"
lru = "=0.18.5"
mio-extras = "=2.0.6"
mongodb = { version = "*", features = ["sync"] }
redis = "=1.7.1"
shakmaty = { version = "=0.30.1", features = ["variant"] }
ws = "=0.9.2"
