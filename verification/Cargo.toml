[package]
name = "prismerge"
version = "1.0.0"
edition = "2021"
publish = false

[dependencies]
clap = { version = "4", features = ["derive"] }
indicatif = "0.17"
rusqlite = { version = "*", features = ["bundled"] }
topological-sort = "0.2"
tree-sitter = "*"
tree-sitter-prisma-io = "*"
uuid = { version = "1", features = ["v4"] }
