[package]
name = "gateway_kinesis_lambda_test"
version = "0.1.0"
edition = "2021"
publish = false

[dependencies]
aws_lambda_events = "*"
cdrs = "*"
envy = "*"
lambda_runtime = "*"
log = "*"
serde = { version = "*", features = ["derive"] }
serde_json = "*"
simplelog = "*"
tokio = { version = "*", features = ["macros", "rt"] }
