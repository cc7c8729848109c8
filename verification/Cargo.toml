[package]
name = "varf"
version = "0.1.0"
edition = "2021"
publish = false

[dependencies]
getopts = "*"
handlebars-iron = "*"
iron = "*"
mount = "*"
router = "*"
rustc-serialize = "*"
serde = { version = "1", features = ["derive"] }
staticfile = "*"
toml = "*"
urlencoded = "*"
xdg-basedir = "*"
