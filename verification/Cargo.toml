[package]
name = "chandelier"
version = "0.4.0"
edition = "2021"
publish = false

[dependencies]
ratatui-core = "*"
ratatui-widgets = "*"
