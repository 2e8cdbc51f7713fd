[package]
name = "midi_notes"
version = "0.1.0"
edition = "2021"
publish = false

[dependencies]
midly = { version = "0.5", default-features = false, features = ["alloc", "std"] }
clap = { version = "4", features = ["derive"] }
