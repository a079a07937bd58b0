[package]
name = "ted"
version = "0.1.0"
edition = "2021"
publish = false

[dependencies]
slotmap = "1"
ropey = "1"
tree-sitter = "*"
devicons = "*"
hex_color = "*"
ratatui = "*"
crossterm = { version = "*", features = ["event-stream"] }
tokio = { version = "1", features = ["full"] }
futures = "0.3"
nucleo = "*"
ignore = "*"
grep-regex = "*"
grep-searcher = "*"
boxcar = "*"
notify-debouncer-full = "*"
dirs-next = "2"
toml = "*"
serde = { version = "1", features = ["derive"] }
clap = { version = "4", features = ["derive"] }
log = "0.4"
enum-map = "2"
