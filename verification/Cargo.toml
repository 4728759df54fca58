[package]
name = "archive_cache"
version = "0.1.0"
edition = "2021"
publish = false

[dependencies]
lru = "*"
zip = { version = "*", default-features = false, features = ["deflate"] }
tree_magic = "*"
hyper = { version = "0.14", features = ["server", "http1", "tcp", "runtime"] }
tokio = { version = "*", features = ["rt-multi-thread", "net", "time"] }
futures = "*"
crossbeam = "*"
notify = "*"
image = "*"
log = "*"
simple_logger = "*"
pretty-bytes = "*"
