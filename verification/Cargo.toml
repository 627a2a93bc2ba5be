[package]
name = "pathrank"
version = "0.1.0"
edition = "2021"
publish = false

[dependencies]
tokio = { version = "*", features = ["full"] }
crossterm = "*"
dirs = "*"
rusqlite = { version = "*", features = ["bundled"] }
kdtree = "*"
dotext = "*"
