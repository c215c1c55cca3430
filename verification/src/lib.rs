//! Incremental commit-history synchronisation: candidate planning, prompt
//! construction, tolerant reply parsing, and a durable / time-limited store,
//! with every rule stated as a contract.

pub mod config;
pub mod export;
pub mod git;
pub mod json;
pub mod llm;
pub mod setup;
pub mod storage;
pub mod sync;
pub mod text;
pub mod ui;
