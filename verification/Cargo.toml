[package]
name = "docdoc"
version = "0.1.0"
edition = "2021"
publish = false

[dependencies]
regex = "1"
clap = { version = "4", features = ["derive", "env"] }
notify = "6"
notify-debouncer-mini = "0.3"
