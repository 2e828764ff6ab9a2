[package]
name = "keyword_extraction_pipeline"
version = "0.1.0"
edition = "2021"
publish = false

[dependencies]
blake3 = "=1.8.7"
unicode-normalization = "=0.1.26"
zip = { version = "=9.2.2", default-features = false, features = ["deflate"] }
quick-xml = "=0.42.0"
calamine = "=0.38.0"
mail-parser = "=0.11.9"
pdf_oxide = "=0.3.78"
lingua = { version = "=1.8.0", default-features = false, features = ["english", "french", "german", "spanish", "italian", "dutch", "portuguese"] }
serde = { version = "=1.0.229", features = ["derive"] }
serde_json = "=1.0.154"
clap = { version = "=4.6.7", features = ["derive"] }
