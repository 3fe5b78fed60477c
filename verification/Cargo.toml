[package]
name = "pluvio"
version = "0.1.0"
edition = "2021"
publish = false

[dependencies]
slab = "0.4"
bytemuck = { version = "1", features = ["derive"] }
futures = "0.3"
core_affinity = "0.8"
tracing = "0.1"
thiserror = "2"
async-backtrace = "0.2"
mpi-sys = "0.2"
async-ucx = "*"
