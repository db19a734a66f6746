//! A bookmark manager library: stored records, tag filtering, pattern
//! search with highlighted spans, and an aligned text report of the results.

pub mod config;
pub mod error;
pub mod format_output;
pub mod highlight;
pub mod matcher;
pub mod record;
pub mod report;
pub mod search;
pub mod tag_list;
pub mod tags;
pub mod text;
pub mod validate;

pub use text::TextPart;
