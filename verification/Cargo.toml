[package]
name = "simple_wiki_search"
version = "0.1.0"
edition = "2021"
publish = false

[dependencies]
regex = "1"
trie-rs = { version = "0.4", features = ["serde"] }
url = "2"
serde_urlencoded = "0.7"
scraper = "*"
anyhow = "1"
bincode = "1"
serde = { version = "1", features = ["derive"] }
serde_json = "1"
ctrlc = "3"
actix-web = "4"
actix-cors = "0.7"
tokio = { version = "1", features = ["macros", "rt-multi-thread", "fs"] }
reqwest = { version = "0.12", default-features = false }
http = "1"
vercel_runtime = "1.1.6"
