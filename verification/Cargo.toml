[package]
name = "ironhide_cli"
version = "0.1.0"
edition = "2021"
publish = false

[dependencies]
bcrypt = "0.9"
chacha20poly1305 = "0.7"
rand = "0.7"
rusqlite = { version = "0.24", features = ["bundled"] }
clipboard = "0.5"
console = "0.14"
rpassword = "5"
