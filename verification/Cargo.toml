[package]
name = "earlyboot"
version = "0.1.0"
edition = "2021"
publish = false

[dependencies]
bit_field = "*"
x86 = "*"
multiboot2 = "*"
spin = "*"
lazy_static = "*"
linked_list_allocator = "*"
