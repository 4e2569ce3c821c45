[package]
name = "nix-archive"
version = "0.4.0"
edition = "2021"
publish = false

[dependencies]
clap = { version = "4", features = ["derive"] }
libc = "0.2"
rustix = { version = "1", features = ["fs"] }
sha2 = "*"
thiserror = "2"
