[package]
name = "oxidfetch"
version = "0.1.0"
edition = "2021"
publish = false

[dependencies]
anyhow = "*"
whoami = "*"
sysinfo = "*"
mlua = { version = "*", features = ["lua54", "vendored"] }
