[package]
name = "zune_inflate"
version = "0.2.0"
edition = "2021"
publish = false

[dependencies]
clap = "=4.6.7"
log = "=0.4.34"
zune-core = "=0.5.3"
zune-imageprocs = "=0.4.15"
zune-ppm = "=0.5.1"

[dev-dependencies]
flate2 = "=1.1.10"
