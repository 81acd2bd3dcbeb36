//! Compiles an XML/JSX-like markup dialect into a JSON description of its
//! syntax tree.
//!
//! The pipeline has four stages, each with a mathematical model in the module
//! that implements it:
//!
//! 1. [`parse_to_nodes`] scans the character buffer into a flat list of events;
//! 2. [`parse_expression_to_props`] turns the tokens of one tag into attributes;
//! 3. [`parse_to_trees`] rebuilds the nesting from the flat list;
//! 4. [`generate_json`] writes the tree as JSON text.
//!
//! [`xml_compile`] runs all four.

pub mod chars;
pub mod compile;
pub mod error;
pub mod json;
pub mod model;
pub mod props;
pub mod scan;
pub mod tree;

pub use crate::chars::{is_white_space, trim_string};
pub use crate::model::{
    Children, Comment, Fragment, FragmentEnd, Node, Nodes, Prop, PropValue, Props, Tag, TagEnd,
    XMLTreeNode,
};
pub use crate::error::CompileError;
pub use crate::props::parse_expression_to_props;
pub use crate::scan::parse_to_nodes;
pub use crate::tree::{is_xml_tree_node_add_to_children, parse_to_trees};
pub use crate::json::{generate_json, push_chars};
pub use crate::compile::xml_compile;
