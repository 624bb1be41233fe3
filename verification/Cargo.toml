[package]
name = "mmtui"
version = "0.1.0"
edition = "2021"
publish = false

[dependencies]
crossterm = { version = "*", features = ["event-stream"] }
ratatui = "*"
serde = { version = "*", features = ["derive"] }
tokio = { version = "*", features = ["macros", "rt-multi-thread", "time", "sync"] }
tokio-stream = "*"
toml = "*"
udisks2 = "*"
xdg = "*"
