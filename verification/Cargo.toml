[package]
name = "json_typegen_shared"
version = "0.1.0"
edition = "2021"
publish = false
