[package]
name = "dsconv"
version = "0.1.0"
edition = "2021"
publish = false

[dependencies]
anyhow = "=1.0.104"
atty = "=0.2.14"
clap = { version = "=3.2.25", features = ["derive"] }
clap_complete = "=3.2.5"
deser-hjson = "=1.2.0"
dialoguer = "=0.10.4"
directories = "=4.0.1"
indexmap = "=1.9.3"
json5 = "=0.4.1"
once_cell = "=1.21.4"
rmp-serde = "=1.3.1"
rmpv = "=1.3.1"
ron = { version = "=0.7.1", features = ["indexmap"] }
serde = { version = "=1.0.229", features = ["derive"] }
serde_cbor = { version = "=0.11.2", features = ["tags"] }
serde_json = { version = "=1.0.154", features = ["preserve_order"] }
serde_yaml = "=0.8.26"
structopt = "=0.3.26"
strum = { version = "=0.24.1", features = ["derive"] }
toml = { version = "=0.5.11", features = ["preserve_order"] }
