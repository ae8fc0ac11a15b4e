[package]
name = "steiger"
version = "0.1.0"
edition = "2021"
publish = false

[dependencies]
globset = "=0.4.21"
pluralizer = "=0.6.0"
regex = "=1.13.1"
strsim = "=0.11.1"
anyhow = "=1.0.104"
clap = { version = "=4.6.7", features = ["derive"] }
ignore = "=0.4.34"
owo-colors = { version = "=4.4.0", features = ["supports-colors"] }
rayon = "=1.12.0"
serde = { version = "=1.0.229", features = ["derive"] }
serde_json = "=1.0.154"
toml = "=1.1.8"
notify = "=8.2.1"
oxc_allocator = "=0.143.0"
oxc_ast = "=0.143.0"
oxc_ast_visit = "=0.143.0"
oxc_parser = "=0.143.0"
oxc_span = "=0.143.0"
oxc_resolver = "=11.24.3"
