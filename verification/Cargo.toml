[package]
name = "alarmbot"
version = "0.1.0"
edition = "2021"
publish = false

[dependencies]
chrono = "*"
native-tls = "*"
tungstenite = { version = "*", features = ["native-tls"] }
