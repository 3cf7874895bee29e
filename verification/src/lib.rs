//! Text-composition analysis over a curated table of Unicode blocks.
//!
//! Each code point of a text is classified into a named Unicode block (such
//! as "Basic Latin" or "CJK Unified Ideographs") belonging to a coarse script
//! group ("Latin", "Cyrillic", "CJK").  A streaming aggregator turns a text
//! into per-group, per-block occurrence counts, from which callers derive
//! percentages of the total code-point count.
//!
//! - [`table`] holds the ordered range table that drives classification.
//! - [`classifier`] maps one code point to the first matching table entry.
//! - [`aggregate`] folds a whole text into grouped block statistics.

pub mod aggregate;
pub mod classifier;
pub mod table;

pub use aggregate::{stats, GroupStats, UnicodeStats};
pub use classifier::{detect_char, UnicodeGroup};
pub use table::{block_table, BlockRange};
