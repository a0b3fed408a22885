[package]
name = "laz2dem"
version = "0.1.0"
edition = "2021"
publish = false

[dependencies]
axum = "*"
clap = { version = "*", features = ["derive"] }
crossbeam = "*"
image = { version = "*", default-features = false, features = ["jpeg", "png"] }
las = { version = "*", features = ["laz"] }
lerc = "*"
ndarray = "*"
proj = "*"
rayon = "*"
rusqlite = { version = "*", features = ["bundled"] }
spade = "*"
tilemath = "*"
tokio = { version = "*", features = ["rt-multi-thread", "macros", "net"] }
walkdir = "*"
zip = { version = "*", default-features = false, features = ["deflate"] }
zstd = "*"
