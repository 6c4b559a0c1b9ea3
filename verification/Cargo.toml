[package]
name = "bill_split"
version = "0.1.0"
edition = "2021"
publish = false

[dependencies]
actix-web = "*"
actix-files = "*"
mime_guess = "*"
serde = { version = "*", features = ["derive"] }
thiserror = "*"
