//! Verified core of the Rust build-tooling helpers: rust-analyzer project
//! discovery, editor setup, label injection, doc-test metadata and the
//! documentation server.

pub mod cache;
pub mod crate_spec;
pub mod cycles;
pub mod discovery;
pub mod flycheck;
pub mod generate;
pub mod json;
pub mod jsonc;
pub mod label_injection;
pub mod launcher;
pub mod mdbook;
pub mod multi_buf;
pub mod order;
pub mod paths;
pub mod rust_project;
pub mod rustdoc_runner;
pub mod rustdoc_wrapper;
pub mod settings;
pub mod setup;
pub mod snippets;
pub mod string_map;
pub mod text;
pub mod user_config;
