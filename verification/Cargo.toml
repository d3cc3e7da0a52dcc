[package]
name = "child_issue"
version = "0.1.0"
edition = "2021"
publish = false

[dependencies]
hubcaps = "*"
tokio = { version = "*", features = ["rt-multi-thread"] }
