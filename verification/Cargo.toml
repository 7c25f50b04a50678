[package]
name = "flatten_rust"
version = "0.1.0"
edition = "2021"
publish = false

[dependencies]
anyhow = "1"
clap = { version = "4", features = ["derive"] }
console = "*"
dirs = "*"
indicatif = "*"
memmap2 = "*"
rayon = "1"
reqwest = { version = "*", features = ["json"] }
serde = { version = "1", features = ["derive"] }
serde_json = "1"
tokio = { version = "1", features = ["macros", "rt-multi-thread"] }
walkdir = "2"
