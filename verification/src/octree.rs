pub mod bbs;
pub mod iter_commons;
pub mod laws;
pub mod node;
pub mod tree;
