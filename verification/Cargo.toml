[package]
name = "exmodhop"
version = "0.1.0"
edition = "2021"
publish = false

[dependencies]
bincode = "1.3"
chrono = "0.4"
clap = { version = "4", features = ["derive"] }
dashmap = "6"
dirs-next = "2"
glob = "0.3"
memmap2 = "0.9"
rayon = "1"
sha2 = "0.10"
tree-sitter = "0.24"
tree-sitter-elixir = "0.3"
