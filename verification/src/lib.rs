//! Static dependency resolution for a registry of Nix packages: locating
//! package lambdas, reading the names they depend on, building the dependency
//! graph, layering it and rendering it as Nix code.

pub mod build_graph;
pub mod codegen;
pub mod cst;
pub mod deps;
pub mod error;
pub mod graph;
pub mod locator;
pub mod package;
pub mod text;
