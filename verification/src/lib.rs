//! A hierarchical model of branch names.
//!
//! Branches are organised into areas, each holding a `feature` and a `product`
//! subtree. A qualified path such as `areaX/feature/login/retry` names a node
//! of that hierarchy; the flat branch name `_areaX/_feature/_login/retry` is
//! its encoding for the underlying version-control tool.
pub mod clique;
pub mod command_line;
pub mod commands;
pub mod commit;
pub mod completion;
pub mod conflict;
pub mod display;
pub mod error;
pub mod git_interface;
pub mod listing_laws;
pub mod node;
pub mod node_path;
pub mod node_type;
pub mod path_laws;
pub mod qualified_path;
pub mod sym;
pub mod text;
pub mod tree;
pub mod tree_laws;
pub mod tree_model;
