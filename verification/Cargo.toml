[package]
name = "nanomesh"
version = "0.1.0"
edition = "2021"
publish = false

[dependencies]
allocator-api2 = "=0.2.21"
hashbrown = "=0.17.1"
priority-queue = "=2.7.0"
nalgebra-glm = "=0.21.0"
