//! Reviewing the translations of many pages in batches.
pub mod batch;
pub mod hints;
pub mod job;
pub mod memory;
pub mod metrics;
pub mod plan;
pub mod request;
pub mod validate;
