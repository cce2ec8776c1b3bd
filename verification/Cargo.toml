[package]
name = "rcon_shell"
version = "0.1.0"
edition = "2021"
publish = false

[dependencies]
anyhow = "1"
clap = { version = "4", features = ["derive"] }
minecraft-client-rs = "*"
regex = "1"
rpassword = "7"
rustyline = "*"
