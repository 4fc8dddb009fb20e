[package]
name = "indexedlog"
version = "0.1.0"
edition = "2021"
publish = false

[dependencies]
esl01-vlqencoding = "=0.3.0"
fs2 = "=0.4.3"
memmap = "=0.7.0"
