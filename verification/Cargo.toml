[package]
name = "privdev_dp_comp"
version = "0.1.0"
edition = "2021"
publish = false

[dependencies]
pht-crypto = "=0.1.0-alpha"
rug = "=1.30.0"
rand = "=0.10.3"
rand_distr = "=0.6.0"
tokio = { version = "=1.53.2", features = ["net", "io-util", "rt", "rt-multi-thread", "sync", "macros", "time"] }
futures = "=0.3.34"
serde = "1"
bincode = "1"
