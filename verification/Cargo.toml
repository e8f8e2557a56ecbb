[package]
name = "libproiectio"
version = "0.1.0"
edition = "2021"
publish = false

[dependencies]
camino = "1"
cap-std = "*"
cap-primitives = "*"
cap-tempfile = "*"
rustix = { version = "*", features = ["fs"] }
serde = { version = "1", features = ["derive"] }
serde_json = "1"
thiserror = "*"
toml = "*"
flate2 = "1"
zstd = "*"
tar = "*"
zip = { version = "*", default-features = false, features = ["deflate"] }
sha2 = "*"
