[package]
name = "kernel"
version = "0.1.0"
edition = "2021"
publish = false

[dependencies]
x86_64 = { version = "0.14", default-features = false, features = ["instructions"] }
multiboot2 = { version = "0.22", default-features = false }
linked_list_allocator = "0.10"
pc-keyboard = "0.7"
pic8259 = "0.10"
spin = "0.9"
