[package]
name = "birthday_reminders"
version = "0.1.0"
edition = "2021"
publish = false

[dependencies]
chrono = "*"
native-dialog = "*"
