[package]
name = "dix"
version = "0.1.0"
edition = "2021"
publish = false

[dependencies]
anyhow = "1"
clap = { version = "4", features = ["derive"] }
clap-verbosity-flag = "3"
derive_more = { version = "2", features = ["deref", "display"] }
diff = "0.1"
eyre = "0.6"
itertools = "0.14"
pathfinding = "4"
rusqlite = { version = "0.37", features = ["bundled"] }
serde = { version = "1", features = ["derive"] }
serde_json = "1"
size = "0.5"
tracing = "0.1"
tracing-subscriber = { version = "0.3", features = ["env-filter"] }
unicode-width = "0.2"
yansi = "1"
