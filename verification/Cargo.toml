[package]
name = "alloc_singleton"
version = "0.1.0"
edition = "2021"
publish = false

[dependencies]
as-slice = "0.1"
generic-array = "0.12"
owned-singleton = "0.1"
stable_deref_trait = "1.1"
