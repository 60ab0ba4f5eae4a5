//! The operations of the tree, one file per family.

pub mod get;
pub mod insert;
pub mod iter;
pub mod remove;
pub mod replace;
pub mod search;
pub mod split;
pub mod take;
