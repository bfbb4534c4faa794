[package]
name = "addrslips"
version = "0.1.0"
edition = "2021"
publish = false

[dependencies]
zstd = "=0.14.0"
uuid = { version = "=1.27.0", features = ["v4"] }
image = "=0.25.10"
time = { version = "=0.3.55", features = ["formatting", "parsing"] }
anyhow = "=1.0.104"
