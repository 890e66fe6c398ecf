[package]
name = "formatelf"
version = "0.1.0"
edition = "2021"
publish = false

[dependencies]
lexopt = "=0.3.2"
memmap2 = "=0.9.12"
object = { version = "=0.37.3", default-features = false, features = ["elf", "read_core", "unaligned"] }
tempfile = "=3.27.0"
thiserror = "=2.0.21"

[dev-dependencies]
proptest = "=1.12.0"
