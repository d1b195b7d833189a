[package]
name = "ghshare"
version = "0.1.0"
edition = "2021"
publish = false

[dependencies]
aes-siv = "=0.8.0"
openssl = "=0.10.81"
openssl-probe = "=0.2.1"
openssh-keys = "=0.6.5"
ssh-key = { version = "*", features = ["encryption"] }
rpassword = "=7.5.4"
dirs = "=7.0.0"
structopt = "=0.3.26"
serde = "=1.0.229"
serde_derive = "=1.0.229"
serde_json = "=1.0.151"
log = "=0.4.34"
env_logger = "=0.11.11"
reqwest = { version = "=0.12.4", features = ["blocking", "json"] }
