[package]
name = "encounter_counter"
version = "0.1.0"
edition = "2021"
publish = false

[dependencies]
xcap = "=0.9.8"
image = "=0.25.10"
ocrs = "=0.13.1"
rten = "=0.26.0"
ctrlc = { version = "=3.5.2", features = ["termination"] }
