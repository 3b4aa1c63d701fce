[package]
name = "mxpm"
version = "0.1.0"
edition = "2021"
publish = false

[dependencies]
anyhow = "1"
base64 = "*"
chrono = { version = "*", default-features = false, features = ["clock", "std"] }
clap = { version = "4", features = ["derive"] }
comfy-table = "*"
ctrlc = "*"
dialoguer = "*"
dirs = "*"
flate2 = "*"
git2 = { version = "*", default-features = false }
hex = "*"
indicatif = "*"
notify = "*"
notify-debouncer-mini = "*"
pulldown-cmark = { version = "*", default-features = false, features = ["html"] }
reqwest = { version = "*", default-features = false }
roxmltree = "*"
serde = { version = "1", features = ["derive"] }
serde_json = "1"
sha2 = "*"
tar = "*"
tempfile = "3"
tera = { version = "1", default-features = false }
thiserror = "*"
tokio = { version = "1", features = ["macros", "rt-multi-thread"] }
toml = "*"
