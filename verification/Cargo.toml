[package]
name = "mdzk"
version = "0.1.0"
edition = "2021"
publish = false

[dependencies]
pulldown-cmark = { version = "=0.9.6", default-features = false }
mdbook = { version = "=0.4.52", default-features = false }
time = { version = "=0.3.55", features = ["parsing", "formatting", "local-offset", "macros"] }
gray_matter = "=0.2.9"
serde = { version = "=1.0.229", features = ["derive"] }
serde_json = "=1.0.154"
toml = "=0.5.11"
anyhow = "=1.0.104"
thiserror = "=1.0.69"
ignore = "=0.4.34"
rayon = "=1.12.0"
fnv = "=1.0.7"
nohash-hasher = "=0.2.0"
chrono = "=0.4.45"
clap = { version = "=3.2.25", features = ["derive"] }
regex = "=1.13.1"
lazy-regex = "=2.5.0"
lazy_static = "=1.5.1"
pathdiff = "=0.2.3"
jql = "=3.3.0"
notify = "4"
warp = "0.3"
tokio = { version = "1", features = ["macros", "rt-multi-thread", "sync"] }
futures-util = { version = "0.3", features = ["sink"] }
