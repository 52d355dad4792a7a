[package]
name = "day_games"
version = "0.1.0"
edition = "2021"
publish = false

[dependencies]
serde = { version = "1", features = ["derive"] }
serde_json = "1"
getrandom = "0.3"
day = "0.12.2"
day-core = "0.6.3"
day-geometry = "0.6.3"
day-part-haptics = "0.6.3"
day-part-sensors = "0.6.3"
day-part-sound = "0.6.3"
day-part-wakelock = "0.6.3"
day-pieces = "0.6.3"
day-reactive = "0.6.3"
day-spec = "0.6.3"
