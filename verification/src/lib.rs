//! Conditional compilation and tree shaking for bundled scripts.
//!
//! A source unit is held as a position-annotated syntax tree together with
//! the comments attached to it. Directives written in comments select regions
//! to delete and expressions to replace by values of a metadata document;
//! afterwards the modules of a bundle that no entry point reaches are pruned.

pub mod span;
pub mod text;
pub mod json;
pub mod ast;
pub mod meta_data;
pub mod grammar;
pub mod macro_parser;
pub mod directive;
pub mod transform;
pub mod bundle;
pub mod graph;
pub mod error;
pub mod parser;
pub mod tree_shaker;
pub mod webpack_module_graph;
pub mod execution_order;
pub mod webpack_tree_shaker;
pub mod shake_laws;
pub mod optimize;
pub mod feature_analyzer;
pub mod mutation_tracker;
pub mod optimization_pipeline;
