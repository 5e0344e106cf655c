[package]
name = "text_retrieval"
version = "0.1.0"
edition = "2021"
publish = false

[dependencies]
caseless = "*"
rust-stemmers = "*"
wordnet_stemmer = "*"
serde_json = "*"
regex = "*"
encoding_rs = "*"
encoding_rs_io = "*"
glob = "*"
