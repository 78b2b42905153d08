[package]
name = "qi_profiler"
version = "0.1.0"
edition = "2021"
publish = false

[dependencies]
anyhow = "=1.0.104"
clap = { version = "=4.6.7", features = ["derive"] }
eframe = { version = "0.36", default-features = false, features = ["default_fonts", "glow", "x11"] }
egui = "=0.36.2"
egui_graphs = "=0.32.0"
petgraph = "=0.8.3"
z3tracer = "=0.11.2"
