[package]
name = "git_tube"
version = "0.1.0"
edition = "2021"
publish = false

[dependencies]
emacs = "*"
git2 = "*"
libc = "*"
