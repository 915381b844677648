//! Building blocks shared by the subsystems.

pub mod context;
pub mod logger;
pub mod poll;
pub mod wait_group;
pub mod word_tree;
