[package]
name = "tlblur"
version = "0.1.0"
edition = "2021"
publish = false

[dependencies]
bmp = "0.5"
clap = { version = "4", features = ["derive"] }
image = { version = "0.25", default-features = false, features = ["jpeg"] }
indicatif = "0.17"
libloading = "0.8"
nix = { version = "0.29", features = ["signal"] }
once_cell = "1"
serde_json = "1"
vcd = "0.7"
