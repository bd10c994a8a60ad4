[package]
name = "truncate_core"
version = "0.1.0"
edition = "2021"
publish = false

[dependencies]
eframe = { version = "=0.24.1", default-features = false, features = ["glow", "wayland"] }
epaint = "=0.24.1"
instant = "=0.1.13"
sqlx = { version = "=0.7.4", default-features = false, features = ["postgres", "uuid", "runtime-tokio"] }
thiserror = "=1.0.69"
uuid = "=1.29.0"
