//! Core of a project-documentation service: it unpacks an uploaded archive
//! into a safe file tree, selects and budgets file contents for prompts,
//! memoizes per-file analyses by content digest, drives a throttled and
//! retrying client for an external text-generation provider, and composes a
//! final project document from the partial results.

pub mod api;
pub mod budget;
pub mod cache;
pub mod client;
pub mod config;
pub mod errors;
pub mod extract;
pub mod manifest;
pub mod markdown;
pub mod paths;
pub mod prompts;
pub mod respond;
pub mod select;
pub mod storage;
pub mod synth;
pub mod text;
pub mod tree;
