//! The decisions and data rules of a comic translation workbench.
//!
//! What the application reads, sends and draws stays outside; what it decides stands here, with a
//! contract on every function.
pub mod agent;
pub mod bulk_review;
pub mod codex;
pub mod command;
pub mod counts;
pub mod export;
pub mod fonts;
pub mod glossary;
pub mod hardware;
pub mod history;
pub mod host;
pub mod ids;
pub mod json;
pub mod linux_cef;
pub mod ner;
pub mod normalize;
pub mod order;
pub mod pipeline;
pub mod processing;
pub mod project_glossary;
pub mod stop_flag;
pub mod terminology;
pub mod text;
pub mod text_map;
pub mod workflow;
