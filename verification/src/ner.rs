//! Finding the names in a text with a local model.
pub mod config;
pub mod encode;
pub mod extract;
pub mod offsets;
pub mod scores;
pub mod spans;
pub mod tokens;
pub mod types;
pub mod windows;
