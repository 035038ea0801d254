[package]
name = "netcup_offer_bot"
version = "0.1.0"
edition = "2021"
publish = false

[dependencies]
chrono = "=0.4.45"
rss = { version = "=2.1.2", features = ["validation"] }
reqwest = "=0.13.5"
tokio = { version = "=1.53.2", features = ["macros", "rt-multi-thread", "time"] }
webhook = "=2.1.2"
