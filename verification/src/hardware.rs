//! The graphics hardware that is found, and the packages that it needs.
pub mod kfd;
pub mod packages;
pub mod targets;
