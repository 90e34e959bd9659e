[package]
name = "kernel_bench"
version = "0.1.0"
edition = "2021"
publish = false

[dependencies]
axiolid-core = "=0.2.1"
axiolid-contracts = "=0.2.1"
axiolid-mesh = "=0.2.1"
axiolid-mesh-boolean-contract = "=0.2.1"
axiolid-mesh-boolean-boolmesh = "=0.2.1"
boolmesh = "=0.1.10"
ifc-lite-geometry = "=28.2.0"
rayon = "=1.12.0"
