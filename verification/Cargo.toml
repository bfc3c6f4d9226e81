[package]
name = "blog_os"
version = "0.1.0"
edition = "2021"
publish = false

[dependencies]
x86_64 = { version = "=0.15.5", default-features = false, features = ["instructions"] }
bootloader = { version = "=0.9.35", features = ["recursive_page_table"] }
spin = "=0.9.9"
lazy_static = "=1.5.1"
pc-keyboard = "=0.7.0"
pic8259 = "=0.11.0"
