[package]
name = "reki3"
version = "0.1.0"
edition = "2021"
publish = false

[dependencies]
url = "=0.5.10"
byteorder = "=1.5.0"
time = "=0.1.45"
hyper = "=0.10.16"
redis = "=0.9.1"
log = "=0.3.9"
env_logger = "=0.4.3"
getopts = "=0.2.24"
