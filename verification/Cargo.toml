[package]
name = "nak"
version = "0.1.0"
edition = "2021"
publish = false

[dependencies]
base64 = "=0.13.1"
rand = "=0.8.8"
byteorder = "=1.5.0"
serde = { version = "=1.0.229", features = ["derive"] }
serde_json = "=1.0.154"
bincode = "=1.3.3"
failure = "=0.1.8"
structopt = "=0.3.26"
os_pipe = "=1.2.3"
ctrlc = "=3.5.2"
libc = "=0.2.191"
tempfile = "=3.27.0"
liner = "=0.4.4"
unix_socket = "=0.5.0"
termion = "=1.5.6"
nix = "=0.26.4"
hostname = "=0.4.2"
dirs = "=7.0.0"
vte = "=0.15.0"
futures = "0.3"
