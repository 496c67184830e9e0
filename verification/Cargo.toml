[package]
name = "plouf-rs"
version = "0.1.0"
edition = "2021"

[dependencies]
bumpalo = "3"
clap = { version = "4", features = ["derive"] }
ignore = "0.4"
mago-database = "=1.26.0"
# `mago-php-version` and `mago-text-edit` only hold the versions that `mago-syntax` builds with.
mago-php-version = ">=1.26, <1.27"
mago-span = "=1.26.0"
mago-syntax = "=1.26.0"
mago-text-edit = "=1.26.0"
oxc = { version = "=0.143.0", features = ["serialize"] }
rayon = "1"
serde_json = { version = "=1.0.154", features = ["preserve_order", "unbounded_depth"] }
