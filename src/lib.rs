//! Call graphs and class hierarchies of C-family sources, extracted from a
//! depth-first stream of syntax nodes and rendered as a tree or a digraph.

pub mod analyzer;
pub mod call;
pub mod class;
pub mod display;
pub mod graph;
pub mod label;
pub mod node;
pub mod roots;
pub mod scan;
pub mod syntax;
pub mod text;
pub mod tree;
pub mod wrap;
