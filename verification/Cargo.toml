[package]
name = "rustformlang"
version = "0.1.0"
edition = "2021"
publish = false

[dependencies]
hashbrown = "*"
rustc-hash = "*"
priority-queue = "*"
once_cell = "*"
smallvec = "*"
fancy-regex = "*"
rayon = "*"
regex_dfa = "*"
regex-syntax = "*"
