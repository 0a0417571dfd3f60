[package]
name = "span_merger"
version = "0.1.0"
edition = "2021"
publish = false

[dependencies]
hexga_ansi_color = "=0.0.11-beta.56"
