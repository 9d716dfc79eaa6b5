[package]
name = "overlayd"
version = "0.1.0"
edition = "2021"
publish = false

[dependencies]
clap = { version = "4", features = ["derive"] }
dbus = "0.9"
dbus-crossroads = "0.5"
gtk = "0.18"
