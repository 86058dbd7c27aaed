[package]
name = "valor_scene"
version = "0.1.0"
edition = "2021"
publish = false

[dependencies]
generational-arena = "0.2"
cgmath = "0.17"
id_tree = "1"
glium = "0.25"
