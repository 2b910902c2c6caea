[package]
name = "freebricks"
version = "0.1.0"
edition = "2021"
publish = false

[dependencies]
petgraph = "=0.8.3"
bevy_platform = "=0.16.1"
bevy_ecs = "=0.16.1"
glam = "=0.29.3"
rapier3d = "=0.26.1"
anyhow = "=1.0.104"
tracing = "=0.1.44"
tracing-subscriber = "=0.3.23"
