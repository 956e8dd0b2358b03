[package]
name = "ciphergen"
version = "0.1.0"
edition = "2021"
publish = false

[dependencies]
rand = "0.8"
sha2 = "0.10"
zstd = "0.13"
log = "0.4"
clap = { version = "4", features = ["derive"] }
env_logger = "0.11"
directories = "5"
png = "0.17"
tabled = "0.15"
bytesize = "1"
md-5 = "0.10"
sha1 = "0.10"
digest = "0.10"
rayon = "1"
