[package]
name = "scx_rusty"
version = "0.5.3"
edition = "2021"
publish = false

[dependencies]
anyhow = "=1.0.104"
clap = { version = "=4.6.7", features = ["derive", "env", "unicode", "wrap_help"] }
ctrlc = { version = "=3.5.2", features = ["termination"] }
fb_procfs = "=0.7.1"
libbpf-rs = "=0.22.1"
libc = "=0.2.191"
log = "=0.4.35"
scx_utils = "=0.7.0"
simplelog = "=0.12.2"
static_assertions = "=1.1.0"

[dev-dependencies]
ordered-float = "=3.9.2"
