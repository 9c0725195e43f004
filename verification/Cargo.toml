[package]
name = "ant_monitor"
version = "0.1.0"
edition = "2021"
publish = false

[dependencies]
chrono = "0.4"
hidapi = { version = "2", default-features = false, features = ["linux-native-basic-udev"] }
libc = "0.2"
log = "0.4"
serde = { version = "1", features = ["derive"] }
simple-logging = "2"
thiserror = "2"
