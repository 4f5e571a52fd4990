[package]
name = "raflow"
version = "0.1.0"
edition = "2021"
publish = false

[dependencies]
arboard = { version = "*", default-features = false }
arc-swap = "*"
cpal = "*"
enigo = { version = "*", default-features = false }
ferrous-opencc = "*"
image = { version = "*", default-features = false, features = ["png"] }
serde = { version = "*", features = ["derive"] }
serde_json = "*"
tao = { version = "*", default-features = false }
tempfile = "*"
thiserror = "*"
tokio = { version = "*", features = ["rt", "sync", "time", "macros"] }
tray-icon = { version = "*", default-features = false }
whisper-rs = { version = "*", default-features = false }
block2 = "*"
objc2 = "*"
objc2-app-kit = "*"
objc2-application-services = "*"
objc2-av-foundation = "*"
objc2-avf-audio = "*"
objc2-core-foundation = "*"
objc2-core-graphics = "*"
objc2-foundation = "*"
objc2-speech = "*"
