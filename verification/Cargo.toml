[package]
name = "transducer"
version = "0.1.0"
edition = "2021"
publish = false

[dependencies]
fst = { version = "0.3", default-features = false }
fst-levenshtein = "*"
fst-regex = "*"
