[package]
name = "sentinel"
version = "0.1.0"
edition = "2021"
publish = false

[dependencies]
anyhow = "1"
caps = "0.5"
clap = "3"
goblin = "0.5"
libc = "0.2"
nix = "0.24"
oci-spec = "0.5"
once_cell = "1"
prctl = "1"
rand = "0.8"
seccompiler = "0.2"
smoltcp = "0.8"
