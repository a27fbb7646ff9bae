[package]
name = "prismtty"
version = "1.1.0"
edition = "2021"
rust-version = "1.85"
publish = false

[dependencies]
anyhow = "1"
clap = { version = "4", features = ["derive"] }
clap_complete = "4"
directories = "*"
is-terminal = "0.4"
nix = { version = "*", features = ["fs", "process", "signal", "term", "user"] }
pcre2 = "0.2"
portable-pty = "*"
serde = { version = "1", features = ["derive"] }
serde_norway = "*"
thiserror = "*"
