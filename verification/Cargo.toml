[package]
name = "io_http"
version = "0.1.0"
edition = "2021"
publish = false

[dependencies]
http = "1"
httparse = "1"
io-stream = "*"
memchr = "2"
thiserror = "2"
log = "0.4"
