[package]
name = "peter"
version = "0.1.0"
edition = "2021"
publish = false

[dependencies]
shlex = "1.3.0"
serenity = "0.12.5"
serde = { version = "1.0", features = ["derive"] }
serde_json = "1.0"
tokio = { version = "1", features = ["fs", "io-util"] }
typemap = "0.3.3"
wrapped_enum = "0.1.3"

[dev-dependencies]
regex = "1"
