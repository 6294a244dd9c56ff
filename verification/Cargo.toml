[package]
name = "dfajit"
version = "0.1.0"
edition = "2021"
publish = false

[dependencies]
matchkit = "*"
regex-automata = "*"
libc = "*"
thiserror = "*"
