[package]
name = "leptos_styling"
version = "0.1.0"
edition = "2021"
publish = false

[dependencies]
inventory = "=0.3.25"
leptos = "=0.8.22"
turf = "=0.9.6"
