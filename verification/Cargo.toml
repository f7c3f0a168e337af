[package]
name = "grex_t0"
version = "0.1.0"
edition = "2021"
publish = false

[dependencies]
byte-slice-cast = "*"
clap = { version = "*", features = ["derive"] }
core_affinity = "*"
eyre = "*"
hifitime = "*"
median = "*"
memmap2 = "*"
rsntp = "*"
sigproc_filterbank = "*"
socket2 = "*"
thingbuf = "*"
tokio = { version = "*", features = ["full"] }
tracing = "*"
tracing-subscriber = "*"
whittaker_smoother = "*"
