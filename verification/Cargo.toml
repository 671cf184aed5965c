[package]
name = "btree_store"
version = "0.1.0"
edition = "2021"
publish = false

[dependencies]
anyhow = "=1.0.104"
clap = "=4.6.7"
log = "=0.4.34"
shlex = "=1.3.0"
unicode-ident = "=1.0.27"

[dev-dependencies]
chumsky = "=0.13.0"
