[package]
name = "box_counting"
version = "0.1.0"
edition = "2021"
publish = false

[dependencies]
image = { version = "0.25", default-features = false, features = ["png"] }
futures = "0.3"
tokio = { version = "1", features = ["macros", "rt-multi-thread"] }
