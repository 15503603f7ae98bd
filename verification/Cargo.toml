[package]
name = "cats"
version = "0.1.0"
edition = "2021"
publish = false

[dependencies]
serde = "=1.0.219"
swc_common = "=0.33.26"
swc_ecma_ast = "=0.110.17"
swc_ecma_dep_graph = "=0.113.22"
swc_ecma_parser = "=0.141.37"
