[package]
name = "ric3"
version = "0.1.0"
edition = "2021"
publish = false

[dependencies]
giputils = "=0.3.6"
log = "=0.4.35"
ctrlc = "=3.5.2"
process_control = "=5.2.0"
tempfile = "=3.27.0"
clap = { version = "=4.6.7", features = ["derive"] }
anyhow = "=1.0.104"
jiff = "=0.2.39"
logforth = "=0.23.1"
procspawn = "=1.0.2"
