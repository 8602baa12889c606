[package]
name = "ember_os"
version = "0.1.0"
edition = "2021"
publish = false

[dependencies]
x86_64 = { version = "=0.14.13", default-features = false, features = ["instructions"] }
pc-keyboard = "=0.7.0"
spin = "=0.9.9"
volatile = "=0.2.7"
lazy_static = { version = "=1.5.1", features = ["spin_no_std"] }
pic8259 = "=0.10.4"
