//! A static site builder: the parts that decide and compute.

pub mod blog;
pub mod config;
pub mod emit;
pub mod error;
pub mod file_helpers;
pub mod frontmatter;
pub mod json;
pub mod links;
pub mod page;
pub mod shorthand;
pub mod site;
pub mod templates;
pub mod text;
pub mod tree;
