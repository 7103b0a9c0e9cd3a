[package]
name = "ipts"
version = "0.1.0"
edition = "2021"
publish = false

[dependencies]
byteorder = "1"
array-init = "2"
webpki = "0.22"
nix = "0.23"
uinput = "0.1"
toml = "0.5"
serde = { version = "1", features = ["derive"] }
rustls = "0.20"
rustls-pemfile = "0.2"
quinn = "0.8"
quinn-proto = "0.8"
tokio = { version = "1", features = ["rt", "macros", "time", "signal", "sync"] }
futures-util = "0.3"
bytes = "1"
ctrlc = "3"
png = "0.17"
