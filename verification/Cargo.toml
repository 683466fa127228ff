[package]
name = "fileshare"
version = "0.1.0"
edition = "2021"
publish = false

[dependencies]
url = "*"
clap = { version = "*", features = ["derive"] }
tokio = { version = "*", features = ["rt-multi-thread", "macros", "fs"] }
reqwest = { version = "*", default-features = false, features = ["json"] }
serde = "*"
serde_derive = "*"
serde_json = "*"
mime_guess = "*"
filetime = "*"
pathdiff = "*"
gethostname = "*"
rpassword = "*"
