[package]
name = "trapir"
version = "0.1.0"
edition = "2021"
publish = false

[dependencies]
clap = "3"
colored = "2"
csv = "1"
fs_extra = "1"
glob = "0.3"
indicatif = "0.17"
kamadak-exif = "0.5"
log = "0.4"
log4rs = "1"
walkdir = "2"
