[package]
name = "equity_solver"
version = "0.1.0"
edition = "2021"
publish = false

[dependencies]
bkgm = "=0.4.0"
fastrand = "=2.5.0"
clap = { version = "=4.6.7", features = ["derive"] }
