[package]
name = "syntaks"
version = "0.1.0"
edition = "2021"
publish = false

[dependencies]
arrayvec = "0.7"
bytemuck = "1"
ctrlc = "3"
getrandom = "0.3"
rand = "0.9"
