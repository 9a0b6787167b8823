[package]
name = "kernelcore"
version = "0.1.0"
edition = "2021"
publish = false

[dependencies]
limine = "*"
linked_list_allocator = "*"
spin = "*"
wasm3 = "*"
x86 = "*"
x86_64 = "*"
