[package]
name = "bf_engine"
version = "0.1.0"
edition = "2021"
publish = false

[dependencies]
bytecount = "0.6"
usize_cast = "1"
either = "1"
clap = { version = "4", features = ["derive"] }
clap_complete = "4"
crossbeam-channel = "0.5"
memmap2 = "0.9"
thiserror = "1"
