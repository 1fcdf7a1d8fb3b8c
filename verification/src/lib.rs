//! Counting lines, words, characters, bytes and the longest line of byte
//! streams, and laying the counts out as a table.

pub mod config;
pub mod count;
pub mod decode;
pub mod duration;
pub mod order;
pub mod output;
pub mod parallel;
pub mod table;
pub mod text;

pub use config::{Config, Flags, SortBy, SortOrder};
pub use count::{
    ByteCountOverflow, CharState, CountOptions, CountState, Counts, LineLengthState, ReadStep,
    WordState,
    count_chars,
    count_max_line_length, count_reader, count_words,
};
pub use duration::Duration;
pub use output::{
    OutputRow, column_widths, format_byte_count, format_duration, format_row, render_rows,
};
pub use parallel::worker_count;
pub use table::{add_glob_matches, arrange_rows, sort_rows, total_counts};
