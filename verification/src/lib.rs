//! A small line-search library: split a text into numbered lines, then
//! filter the lines by substring containment, case-sensitively or not.

pub mod config;
pub mod index;
pub mod line;
pub mod search;

pub use config::Config;
pub use index::lines_to_vec_lines;
pub use line::Line;
pub use search::search;
pub use search::search_case_insensitive;
