//! A provider-agnostic layer between a canonical conversation model and the wire
//! protocols of LLM vendors: request building, incremental stream parsing into canonical
//! events, and provider/model resolution.

pub mod config;
pub mod events;
pub mod file_watcher;
pub mod integrations;
pub mod json;
pub mod keyed;
pub mod laws;
pub mod lsp;
pub mod model_registry;
pub mod openai;
pub mod platform;
pub mod registry;
pub mod request;
pub mod server;
pub mod shell_utils;
pub mod stream;
pub mod text;
pub mod text_map;
pub mod tracing;
pub mod transcription;
pub mod types;
pub mod walker;
