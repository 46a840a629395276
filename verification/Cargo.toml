[package]
name = "rvos"
version = "0.1.0"
edition = "2021"
publish = false

[dependencies]
xmas-elf = "0.7"
riscv = "0.10"
lazy_static = "1.4"
buddy_system_allocator = "0.6"
