[package]
name = "duty_tracker"
version = "0.1.0"
edition = "2021"
publish = false

[dependencies]
calamine = "=0.36.1"
chrono = "=0.4.45"
clap = { version = "=4.6.7", features = ["derive"] }
glob = "=0.3.4"
imap = "=2.4.1"
mailparse = "=0.17.0"
native-tls = "=0.2.18"
