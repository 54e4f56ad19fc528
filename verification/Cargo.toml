[package]
name = "nxdl"
version = "0.1.0"
edition = "2021"
publish = false

[dependencies]
anyhow = "=1.0.104"
base64 = "=0.22.1"
clap = { version = "=4.6.7", features = ["derive"] }
flate2 = "=1.1.10"
hex = "=0.4.3"
indicatif = "=0.17.11"
md5 = "=0.7.0"
regex = "=1.13.1"
rustls = { version = "=0.23.46", default-features = false, features = ["ring", "std", "tls12", "logging"] }
serde = { version = "=1.0.229", features = ["derive"] }
serde_json = "=1.0.154"
sha1 = "=0.10.7"
tao = "*"
ureq = "=2.12.1"
windows = { version = "*", features = ["Win32_Foundation", "Win32_System_Com", "Win32_UI_Shell"] }
winreg = "*"
wry = "*"
