[package]
name = "wikifreq"
version = "0.1.0"
edition = "2021"
publish = false

[dependencies]
scraper = "*"
roxmltree = "*"
bzip2 = "*"
clap = "*"
rayon = "*"
regex = "*"
