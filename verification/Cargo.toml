[package]
name = "qobuz_player"
version = "0.1.0"
edition = "2021"
publish = false

[dependencies]
reqwest = { version = "*", default-features = false }
local-ip-address = "*"
bytes = "*"
futures = "*"
parking_lot = "*"
stream-download = { version = "*", default-features = false }
tokio = { version = "*", features = ["sync", "rt", "rt-multi-thread", "macros"] }
serde = { version = "*", features = ["derive"] }
serde_json = "*"
snafu = "*"
tracing = "*"
tracing-subscriber = { version = "*", features = ["env-filter"] }
clap = { version = "*", features = ["derive", "env"] }
paho-mqtt = "*"
gtk4 = "*"
glib = "*"
libadwaita = "*"
