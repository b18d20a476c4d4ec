[package]
name = "synthgen"
version = "0.1.0"
edition = "2021"
publish = false

[dependencies]
rand = "*"
rayon = "*"
zstd = "*"
sha2 = "*"
sha1 = "*"
md-5 = "*"
hex = "*"
chrono = "*"
bytesize = "*"
tabled = "*"
clap = { version = "*", features = ["derive"] }

[dev-dependencies]
regex = "*"
