//! The rules by which a pile of PDFs becomes a library.

pub mod apply;
pub mod brain;
pub mod cache;
pub mod chapters;
pub mod cli;
pub mod config;
pub mod enrich;
pub mod extract;
pub mod float;
pub mod metadata;
pub mod naming;
pub mod natural;
pub mod number;
pub mod order;
pub mod outline;
pub mod paths;
pub mod pdf;
pub mod pipeline;
pub mod report;
pub mod scan;
pub mod systems;
pub mod table;
pub mod text;
pub mod types;
