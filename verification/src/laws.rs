//! What the operations of the library are for, stated over their inputs and
//! results alone.

pub mod cli;
pub mod clip;
pub mod double;
pub mod engine;
pub mod gates;
pub mod journal;
pub mod lsp;
pub mod report;
pub mod run;
pub mod scope;
pub mod text;
