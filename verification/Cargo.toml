[package]
name = "zpack"
version = "0.1.0"
edition = "2021"
publish = false

[dependencies]
z3 = "*"
petgraph = "*"
itertools = "*"
anyhow = "*"
clap = { version = "*", features = ["cargo"] }
clap_complete = "*"
anstyle = "*"
pyo3 = "*"
tracing = "*"
tracing-subscriber = "*"
