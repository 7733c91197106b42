[package]
name = "kernel"
version = "0.1.0"
edition = "2021"
publish = false

[dependencies]
elf = { version = "=0.8.0", default-features = false }
hashbrown = "=0.17.1"
thiserror = "=2.0.21"
uefi = "=0.41.0"
spin = "=0.12.3"
tock-registers = "=0.10.1"
aarch64-cpu = "=11.2.0"
log = "=0.4.35"
