[package]
name = "decdnnf_rs"
version = "0.1.0"
edition = "2021"
publish = false

[dependencies]
anyhow = "=1.0.104"
clap = "=2.34.0"
# The backend of rug, named here to link the GMP of the system in place of the bundled one.
gmp-mpfr-sys = { version = "=1.5.3", default-features = false, features = ["use-system-libs"] }
log = "=0.4.34"
rayon = "=1.12.0"
rug = { version = "=1.19.2", default-features = false, features = ["integer", "rand"] }
rustc-hash = "=2.1.3"
