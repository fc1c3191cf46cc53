[package]
name = "kernel"
version = "0.1.0"
edition = "2021"
publish = false

[dependencies]
buddy_system_allocator = "=0.13.0"
xmas-elf = "=0.10.0"
riscv = "=0.16.1"
sbi-rt = { version = "=0.0.3", features = ["legacy"] }
log = "=0.4.34"
lazy_static = { version = "=1.5.1", features = ["spin_no_std"] }
clap = { version = "=4.6.7", features = ["derive"] }
