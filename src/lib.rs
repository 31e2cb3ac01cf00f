//! Quality checks for structured prose documents: a readability grade for the
//! prose, and whether a template's required sections are present and filled.

pub mod text;
pub mod markdown;
pub mod readability;
pub mod completeness;
pub mod tokens;
