//! Running the stages of a translation over the pages of a project.
pub mod execution;
pub mod request;
pub mod stage_runner;
pub mod translation;
