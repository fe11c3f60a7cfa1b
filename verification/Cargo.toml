[package]
name = "process_monitor"
version = "0.1.0"
edition = "2021"
publish = false

[dependencies]
chrono = "*"
ctrlc = "*"
env_logger = "*"
log = "*"
sysinfo = "*"
winapi = { version = "0.3", features = ["fileapi", "handleapi", "winbase", "winnt"] }

[dev-dependencies]
serde_json = "*"
