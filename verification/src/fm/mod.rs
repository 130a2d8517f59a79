//! The files of a tree as they are held in memory.

pub mod nodes;
pub mod roots;
