[package]
name = "json_streams"
version = "0.1.0"
edition = "2021"
publish = false

[dependencies]
nom = "=7.1.3"
nom-bufreader = "0.2"
serde_json = "=1.0.154"
thiserror = "=1.0.69"
simple_lines = "=0.0.1"
log = "=0.4.35"
