[package]
name = "sequencer"
version = "0.1.0"
edition = "2021"

[dependencies]
clap = { version = "4", features = ["derive"] }
cpal = "0.15"
hound = "3.5"
notify-debouncer-mini = "0.4"
serde_json = "1"
