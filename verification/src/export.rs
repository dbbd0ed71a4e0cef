//! Writing the pages of a project to files.
pub mod archive;
pub mod names;
pub mod images;
