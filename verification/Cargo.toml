[package]
name = "note_tree"
version = "0.1.0"
edition = "2021"
publish = false

[dependencies]
bridgetree = "*"
byteorder = "1"
incrementalmerkletree = { version = "*", features = ["legacy-api"] }
orchard = { version = "*", default-features = false }
sapling-crypto = { version = "*", default-features = false }
subtle = "2"
zcash_encoding = "*"
zcash_primitives = { version = "*", default-features = false }
