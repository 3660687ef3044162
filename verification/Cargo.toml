[package]
name = "cbfmt"
version = "0.1.0"
edition = "2021"
publish = false

[dependencies]
tree-sitter = "=0.20.10"
tree-sitter-md = "=0.1.7"
tree-sitter-org = "=1.3.3"
tree-sitter-rst = "=0.1.0"
tokio = { version = "=1.53.2", features = ["full"] }
futures = "=0.3.34"
clap = "=3.2.25"
atty = "=0.2.14"
termcolor = "=1.4.1"
thiserror = "=1.0.69"
serde = { version = "=1.0.229", features = ["derive"] }
config = "=0.13.4"
ignore = "=0.4.33"
