[package]
name = "auction_game"
version = "0.1.0"
edition = "2021"
publish = false

[dependencies]
ahash = "0.8"
bimap = "0.6"
chrono = "0.4"
crossbeam = "0.8"
crossbeam-deque = "0.8"
dashmap = "6"
env_logger = "0.11"
itertools = "0.14"
log = "0.4"
num-traits = "0.2"
rand = "0.9"
