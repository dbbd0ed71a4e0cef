//! The glossary of a project: its entries, how they are found, edited, exchanged and translated.
pub mod edit;
pub mod exchange;
pub mod files;
pub mod fingerprint;
pub mod jobs;
pub mod model;
pub mod scan;
