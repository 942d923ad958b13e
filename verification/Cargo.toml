[package]
name = "case_gadget"
version = "0.1.0"
edition = "2021"
publish = false

[dependencies]
bellperson = "=0.27.0"
ff = { version = "=0.13.1", features = ["derive"] }
