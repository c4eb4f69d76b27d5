//! A persistent ordered map: a B-tree whose nodes are shared between the
//! versions of a map and copied when one of them is changed.

pub mod config;
pub mod delete;
pub mod entries;
pub mod find;
pub mod insert;
pub mod keys;
pub mod layout;
pub mod node;
pub mod sharing;
pub mod tree;
pub mod visit;

pub use crate::config::BTreeConfig;
pub use crate::find::{KeyRangeResult, PredicateResult};
pub use crate::tree::BTree;
