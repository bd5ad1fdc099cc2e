[package]
name = "sailfish_minify"
version = "0.1.0"
edition = "2021"
publish = false

[dependencies]
regex = "1"
syn = { version = "2", features = ["full"] }
proc-macro2 = "1"
quote = "1"
minify-html = "*"
pathdiff = "0.2"
rayon = "1"
sailfish-compiler = { version = "*", features = ["procmacro"] }

[dev-dependencies]
tempfile = "3"
