//! Scoped, gated formatting.

pub mod cli;
pub mod clip;
pub mod diff;
pub mod double;
pub mod engine;
pub mod events;
pub mod gates;
pub mod journal;
pub mod json;
pub mod laws;
pub mod lsp;
pub mod replay;
pub mod report;
pub mod run;
pub mod sandbox;
pub mod scope;
pub mod text;
pub mod types;
pub mod unified;
