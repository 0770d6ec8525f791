[package]
name = "sheetforge"
version = "0.1.0"
edition = "2021"
publish = false

[dependencies]
sha2 = "=0.10.9"
hex = "=0.4.3"
encoding_rs = "=0.8.44"
csv = "=1.4.0"
serde = { version = "=1.0.229", features = ["derive"] }
serde_json = "=1.0.154"
calamine = "=0.38.0"
rust_xlsxwriter = { version = "=0.102.0", features = ["constant_memory"] }
walkdir = "=2.5.0"
anyhow = "=1.0.104"
toml = "=1.1.8"
strsim = "=0.11.1"
directories = "=6.0.0"
tokio = { version = "=1.54.1", features = ["rt-multi-thread", "macros", "sync"] }
tokio-postgres = "=0.7.18"
futures-util = "=0.3.34"
bytes = "=1.12.1"
native-tls = "=0.2.18"
postgres-native-tls = "=0.5.3"
keyring = { version = "=3.6.3", features = ["linux-native"] }
ureq = "3"
webbrowser = "1"
