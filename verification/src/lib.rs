//! Information-flow analysis for Go programs.

pub mod analyzer;
pub mod ast;
pub mod build_constraints;
pub mod config;
pub mod context;
pub mod decls;
pub mod errors;
pub mod files;
pub mod functions;
pub mod insertion;
pub mod labels;
pub mod locations;
pub mod ordered;
pub mod policy;
pub mod snapshots;
pub mod symbols;
pub mod taint;
pub mod text;
pub mod values;
