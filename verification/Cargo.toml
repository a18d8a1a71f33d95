[package]
name = "ecs_snapshot"
version = "0.1.0"
edition = "2021"
publish = false

[dependencies]
vec_map = "0.8"
rlua = "0.17"
