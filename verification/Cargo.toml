[package]
name = "tdu_savegame"
version = "0.1.0"
edition = "2021"
publish = false

[dependencies]
fs_extra = "=1.3.0"
iced = { version = "=0.10.0", default-features = false }
rfd = { version = "=0.12.1", default-features = false, features = ["xdg-portal"] }
