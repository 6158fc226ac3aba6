[package]
name = "mazalot"
version = "0.1.0"
edition = "2021"
publish = false

[dependencies]
image = { version = "0.25", default-features = false, features = ["gif", "png"] }
gif = "0.13"
tokio = { version = "1", features = ["rt"] }
