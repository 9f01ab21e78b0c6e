[package]
name = "torrent_create"
version = "0.1.0"
edition = "2021"
publish = false

[dependencies]
globset = "0.4"
md5 = "0.7"
sha1 = "0.6"
structopt = "0.3"
url = "2"

[dev-dependencies]
bendy = "0.3"
