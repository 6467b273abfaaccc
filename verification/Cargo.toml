[package]
name = "trackjoy"
version = "0.1.0"
edition = "2021"
publish = false

[dependencies]
memmem = "*"
evdev = { version = "*", features = ["tokio"] }
tokio = { version = "*", features = ["macros", "rt", "process", "sync", "time"] }
notify = "*"
serde = { version = "*", features = ["derive"] }
serde_json = "*"
aargvark = "*"
loga = "*"
taskmanager = "*"
manual_future = "*"
futures = "*"
