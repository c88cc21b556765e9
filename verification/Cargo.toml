[package]
name = "tstub"
version = "0.1.0"
edition = "2021"
publish = false

[dependencies]
rusqlite = { version = "*", features = ["bundled"] }
serde_json = "*"
serde = { version = "*", features = ["derive"] }
actix-web = "*"
actix-files = "*"
futures = "*"
log = "*"
log4rs = "*"
structopt = "*"
