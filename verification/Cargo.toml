[package]
name = "furnace"
version = "0.2.0"
edition = "2021"
publish = false

[dependencies]
cranelift-codegen = "=0.130.2"
cranelift-frontend = "=0.130.2"
cranelift-module = "=0.130.2"
cranelift-native = "=0.130.2"
cranelift-object = "=0.130.2"
rayon = "=1.12.0"
tempfile = "=3.27.0"
which = "=8.0.6"
