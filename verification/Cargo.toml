[package]
name = "obstore"
version = "0.1.0"
edition = "2021"
publish = false

[dependencies]
object_store = "=0.14.2"
futures = "=0.3.34"
