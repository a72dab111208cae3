[package]
name = "walkthrough"
version = "0.1.0"
edition = "2021"
publish = false

[dependencies]
anyhow = "=1.0.104"
arborium = { version = "=2.18.2", features = ["lang-typescript", "lang-tsx", "lang-javascript", "lang-rust", "lang-python", "lang-go", "lang-ruby", "lang-java", "lang-c", "lang-cpp", "lang-css", "lang-html", "lang-json", "lang-yaml", "lang-toml", "lang-bash", "lang-sql", "lang-swift", "lang-kotlin"] }
clap = { version = "=4.6.7", features = ["derive"] }
pulldown-cmark = "=0.13.6"
regex = "=1.13.1"
serde = { version = "=1.0.229", features = ["derive"] }
serde_json = "=1.0.154"
