[package]
name = "jeprofl"
version = "0.1.0"
edition = "2021"
publish = false

[dependencies]
anyhow = "1"
aya = "0.13"
aya-ebpf = "0.1"
aya-log = "0.2"
blazesym = "0.2.0-rc.0"
clap = { version = "4", features = ["derive"] }
crossterm = "0.28"
csv = "1"
derive_more = { version = "2", features = ["display", "from_str"] }
env_logger = "0.11"
inferno = "0.12"
jiff = "0.2"
libc = "0.2"
log = "0.4"
minus = { version = "5.6", features = ["dynamic_output"] }
object = "0.37"
regex = "1"
rustc-demangle = "0.1"
rustc-hash = "2"
scopeguard = "1"
tokio = { version = "1", features = ["macros", "rt-multi-thread", "signal", "time"] }

[dev-dependencies]
object = { version = "0.37", features = ["write"] }
