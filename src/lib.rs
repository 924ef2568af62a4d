pub mod sparse;
pub mod tree;
