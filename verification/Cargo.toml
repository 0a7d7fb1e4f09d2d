[package]
name = "lab_allocator"
version = "0.1.0"
edition = "2021"
publish = false

[dependencies]
axallocator = { version = "*", default-features = false }
log = "=0.4.34"
