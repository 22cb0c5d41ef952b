[package]
name = "krtk"
version = "0.1.0"
edition = "2021"
publish = false

[dependencies]
url = "*"
cuid2 = "*"
chrono = "*"
scraper = "*"
serde = { version = "*", features = ["derive"] }
serde_json = "*"
tokio = { version = "*", features = ["macros", "rt-multi-thread"] }
lambda_http = "*"
lambda_runtime = "*"
aws-config = "*"
aws-sdk-dynamodb = "*"
aws-sdk-secretsmanager = "*"
aws_lambda_events = "*"
reqwest = { version = "*", default-features = false, features = ["json"] }
askama = "*"
