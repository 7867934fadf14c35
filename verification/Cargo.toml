[package]
name = "native_extractor"
version = "0.1.0"
edition = "2021"

[dependencies]
jni = "0.21"
