[package]
name = "bet_arbitrage"
version = "0.1.0"
edition = "2021"
publish = false

[dependencies]
async-trait = "0.1"
playwright = "*"
reqwest = { version = "0.11", features = ["gzip", "brotli"] }
scraper = "*"
tokio = { version = "1", features = ["macros", "rt-multi-thread"] }
