[package]
name = "crok"
version = "0.1.0"
edition = "2021"
publish = false

[dependencies]
dirs = "*"
dunce = "*"
fast-strip-ansi = "*"
grok = "*"
humantime = "*"
libc = "*"
rustix = { version = "*", features = ["event", "process", "pipe", "fs"] }
serde = { version = "*", features = ["derive"] }
shellish_parse = "*"
tempfile = "*"
termcolor = "*"
termsize = "*"
unicode-segmentation = "*"
unicode-width = "*"
utf8-supported = "*"
vt-push-parser = "*"
