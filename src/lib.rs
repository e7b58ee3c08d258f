//! Counting lines and characters of texts and of directory trees.

pub mod text;
pub mod config;
pub mod walk;
