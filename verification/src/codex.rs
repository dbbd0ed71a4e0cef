//! Talking to the assistant service: models, requests, replies and retries.
pub mod model;
pub mod protocol;
pub mod retry;
pub mod stream;
