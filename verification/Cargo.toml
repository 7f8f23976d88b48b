[package]
name = "perf_sched_plot"
version = "0.1.0"
edition = "2021"
publish = false

[dependencies]
anyhow = "1"
clap = { version = "4", features = ["derive"] }
textplots = "0.8"

[dev-dependencies]
winnow = "0.6"
