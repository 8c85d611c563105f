[package]
name = "pear_bot"
version = "0.1.0"
edition = "2021"
publish = false

[dependencies]
chrono = "0.4"
dotenv = "0.15"
poise = "0.6"
rand = "0.9"
regex = "1"
simple_db = "*"
tokio = { version = "1", features = ["macros", "rt-multi-thread"] }
