[package]
name = "sparse"
version = "0.1.0"
edition = "2021"
publish = false

[dependencies]
backtrace = "0.3"
chrono = "0.4"
cli-clipboard = "0.4"
dirs = "5"
hostname = "0.3"
linkify = "0.10"
mime_guess = "2"
nix = { version = "0.26", default-features = false, features = ["signal", "term"] }
notify-rust = "4"
regex = "1"
rlua = "0.19"
rpassword = "5"
ruma = { version = "0.11", default-features = false }
sequence_trie = "0.3"
serde_json = "1"
shellexpand = "2"
structopt = "0.3"
tempfile = "3"
termion = "1"
tokio = { version = "1", features = ["full"] }
tracing = "0.1"
tracing-appender = "0.2"
tracing-subscriber = { version = "0.3", features = ["env-filter"] }
unsegen = "0.3"
unsegen_signals = "0.3"
url = "2"
