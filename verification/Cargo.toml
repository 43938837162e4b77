[package]
name = "industry_excel_checker"
version = "0.1.0"
edition = "2021"
publish = false

[dependencies]
anyhow = "1"
calamine = { version = "0.26", default-features = false }
directories = "6"
eframe = { version = "0.31", default-features = false, features = ["default_fonts", "glow", "x11"] }
regex = "1"
serde = { version = "1", features = ["derive"] }
serde_json = "1"
tempfile = "3"
tracing = "0.1"
tracing-subscriber = { version = "0.3", features = ["env-filter", "fmt"] }
umya-spreadsheet = { version = "2", default-features = false }
