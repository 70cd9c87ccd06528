[package]
name = "fchat_log_merge"
version = "0.1.0"
edition = "2021"
publish = false

[dependencies]
clap = { version = "4", features = ["derive"] }
humantime = "2"
humansize = "2"
linya = "0.3"
log = "0.4"
rayon = "1"
stderrlog = "0.6"
thiserror = "2"
