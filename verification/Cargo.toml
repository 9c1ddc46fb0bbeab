[package]
name = "swc_macro"
version = "0.1.0"
edition = "2021"
publish = false

[dependencies]
regex = "1"
serde = { version = "1", features = ["derive"] }
serde_json = "1"
swc_core = { version = "*", features = ["common", "ecma_ast", "ecma_codegen", "ecma_parser", "ecma_visit", "ecma_transforms", "ecma_transforms_optimization"] }
thiserror = "*"
wasm-bindgen = "0.2"
