[package]
name = "grub_split"
version = "0.1.0"
edition = "2021"
publish = false

[dependencies]
env_logger = "*"
log = "*"
proc-maps = "*"
read-process-memory = "*"
