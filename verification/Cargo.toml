[package]
name = "tafukt"
version = "0.1.0"
edition = "2021"
publish = false

[dependencies]
sha1 = "0.10"
data-encoding = "2"
thiserror = "2"
anyhow = "1"
tokio = { version = "1", features = ["rt-multi-thread", "macros", "net", "io-util", "sync", "time", "fs"] }
tracing = "0.1"
tracing-subscriber = "0.3"
rand = "*"
regex = "1"
reqwest = { version = "0.12", default-features = false }
memmap2 = "0.9"
bytes = "1"
bitvec = "1"
urlencoding = "2"
