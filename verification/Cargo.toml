[package]
name = "torrent_metainfo"
version = "0.1.0"
edition = "2021"
publish = false

[dependencies]
hex = "0.4"
sha1 = "0.10"

[dev-dependencies]
serde_bencode = "0.2"
