[package]
name = "prest_embed"
version = "0.1.0"
edition = "2021"
publish = false

[dependencies]
sha2 = "0.10"
syn = "2"
quote = "1"
proc-macro2 = "1"
shellexpand = "3"
chrono = "0.4"
rev_buf_reader = "0.3"
ansi-to-html = "0.2"
tracing = "0.1"
tracing-appender = "0.2"
tracing-subscriber = { version = "0.3", features = ["env-filter", "json", "chrono"] }
