[package]
name = "commonplace"
version = "0.1.0"
edition = "2021"
publish = false

[dependencies]
serde = { version = "1", features = ["derive"] }
serde_json = "1"
walkdir = "2"
tokio = { version = "1", features = ["rt-multi-thread", "macros", "time", "io-std"] }
reqwest = { version = "0.12", default-features = false, features = ["json", "stream", "rustls-tls"] }
futures-util = "0.3"
trash = "5"
notify-debouncer-mini = "*"
arrow-array = "*"
arrow-schema = "*"
windows-sys = { version = "*", features = ["Win32_Foundation", "Win32_System_JobObjects"] }
