//! What the command-line tool prints: query results as text, as raw XML or as
//! JSON, and statistics of an index.

pub mod json;
pub mod laws;
pub mod render;
pub mod statistics;

pub use json::json_array;
pub use render::{render_batch, render_query, QueryOptions, Rendered, Source};

pub use statistics::{max_depth, tag_statistics, TagCount};
