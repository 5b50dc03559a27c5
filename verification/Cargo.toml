[package]
name = "zunetui"
version = "0.1.0"
edition = "2021"
publish = false

[dependencies]
color-eyre = "*"
crossterm = "*"
libc = "*"
lofty = "*"
ratatui = "*"
tui-tree-widget = "*"
