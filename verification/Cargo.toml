[package]
name = "ddbug"
version = "0.1.0"
edition = "2021"
publish = false

[dependencies]
env_logger = "=0.4.3"
getopts = "=0.2.24"
gimli = "=0.11.0"
log = "=0.3.9"
memmap = "=0.5.2"
xmas-elf = "0.3"
