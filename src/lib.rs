//! Assembling PDF documents from several sources and splitting one document
//! into several, driven by a small page-range language and a filtering
//! directory scanner.

pub mod cli;
pub mod text;
pub mod spec;
pub mod naming;
pub mod glob;
pub mod scan;
pub mod progress;
pub mod pdf;
pub mod tree;
pub mod merge;
pub mod split;
