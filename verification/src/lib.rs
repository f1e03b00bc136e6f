//! Resumable document translation: a document is segmented into sentences,
//! grouped into chunks, each chunk is translated by an engine at most once
//! and kept in a content-addressed cache, and the results are merged in
//! chunk order.

pub mod cache;
pub mod chunker;
pub mod cleanup;
pub mod config;
pub mod error;
pub mod key;
pub mod laws;
pub mod merger;
pub mod orchestrator;
pub mod segment;
pub mod text;
pub mod translator;

pub use crate::translator::{Device, ModelSize, Translator, TranslatorBuilder};
