[package]
name = "java_dataset_converter_llm"
version = "0.1.0"
edition = "2021"
publish = false

[dependencies]
tree-sitter = "=0.27.1"
tree-sitter-java = "=0.23.5"
clap = { version = "=4.6.7", features = ["derive"] }
indicatif = "=0.18.6"

[dev-dependencies]
serde_json = "=1.0.154"
