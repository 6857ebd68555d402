//! Keyed record repositories: in-memory stores for reference and rich-text
//! records, addressed by 128-bit identifiers.

pub mod citation;
pub mod rich_text;
pub mod store;
