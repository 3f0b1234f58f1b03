[package]
name = "rcore_os"
version = "0.1.0"
edition = "2021"
publish = false

[dependencies]
xmas-elf = "0.7"
riscv = "0.10"
bitflags = "1.2"
lazy_static = "1.4"
