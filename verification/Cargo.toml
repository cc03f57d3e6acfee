[package]
name = "httm"
version = "0.1.0"
edition = "2021"
publish = false

[dependencies]
crossbeam = "0.8"
time = { version = "0.3", features = ["formatting"] }
serde = { version = "1", features = ["derive"] }
serde_json = "1"
number_prefix = "0.4"
terminal_size = "*"
which = "*"
filetime = "0.2"
xattr = "*"
nix = { version = "*", features = ["user", "fs"] }
lscolors = "*"
ansi_term = "0.12"
rayon = "1"
