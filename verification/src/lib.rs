pub mod text;
pub mod instruction_tree;
pub mod format;
pub mod decoder;
pub mod decoding;
pub mod cli;
pub mod executable;
pub mod listing;
