[package]
name = "ipwatch"
version = "0.1.0"
edition = "2021"
publish = false

[dependencies]
chrono = "*"
dotenv = "*"
mail-send = "*"
public-ip = "*"
tokio = { version = "*", features = ["macros", "rt-multi-thread"] }
