//! Box-tree construction and the integer parts of layout.

pub mod block;
pub mod box_tree;
pub mod geometry;
pub mod inline;
pub mod paginate;
pub mod table;
pub mod white_space;
