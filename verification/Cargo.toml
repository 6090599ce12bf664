[package]
name = "winiso"
version = "0.1.0"
edition = "2021"
publish = false

[dependencies]
byteorder = "=1.5.0"
cab = "=0.6.0"
clap = { version = "=4.6.7", features = ["derive"] }
ctrlc = "=3.5.2"
dialoguer = "=0.12.0"
fatfs = "=0.3.6"
fscommon = "=0.1.1"
indicatif = "=0.18.6"
libc = "=0.2.191"
mbrman = "=0.6.1"
plist = "=1.10.3"
reqwest = { version = "=0.12.28", default-features = false, features = ["blocking", "json", "cookies", "rustls-tls"] }
roxmltree = "=0.21.2"
serde_json = "=1.0.154"
sha1 = "0.10"
thiserror = "=2.0.21"
uuid = { version = "=1.29.0", features = ["v4"] }
