[package]
name = "word_search"
version = "0.1.0"
edition = "2021"
publish = false

[dependencies]
rand = "0.8"
unicode-normalization = "0.1"
printpdf = "0.7"
