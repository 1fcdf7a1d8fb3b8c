//! What to count and how to show it.

use vstd::prelude::*;
use crate::count::CountOptions;

verus! {

/// The column by which output rows are sorted.
#[derive(Clone, Copy, Debug, PartialEq, Eq, Structural)]
pub enum SortBy {
    Lines,
    Words,
    Chars,
    MaxLine,
    Bytes,
    File,
    Duration,
}

/// The direction in which output rows are sorted.
#[derive(Clone, Copy, Debug, PartialEq, Eq, Structural)]
pub enum SortOrder {
    Asc,
    Desc,
}

/// What to count, which columns to show, and which inputs to read.
#[derive(Debug, PartialEq, Eq)]
pub struct Config {
    pub show_lines: bool,
    pub show_words: bool,
    pub show_chars: bool,
    pub show_bytes: bool,
    pub show_max_line_length: bool,
    pub show_headings: bool,
    pub human_readable: bool,
    pub self_profile: bool,
    pub jobs: Option<usize>,
    pub sort_by: Option<SortBy>,
    pub sort_order: SortOrder,
    pub globs: Vec<String>,
    pub files: Vec<String>,
}

impl Config {
    /// The counts that the shown columns need.
    pub fn count_options(&self) -> (options: CountOptions)
        ensures
            options.lines == self.show_lines,
            options.words == self.show_words,
            options.chars == self.show_chars,
            options.max_line_length == self.show_max_line_length,
    {
        CountOptions {
            lines: self.show_lines,
            words: self.show_words,
            chars: self.show_chars,
            max_line_length: self.show_max_line_length,
        }
    }
}

/// The options given on the command line, before they are resolved into a
/// `Config`.
#[derive(Debug)]
pub struct Flags {
    pub lines: bool,
    pub words: bool,
    pub chars: bool,
    pub include_chars: bool,
    pub include_words: bool,
    pub longest_line: bool,
    pub include_longest_line: bool,
    pub bytes: bool,
    pub all: bool,
    pub human_readable: bool,
    pub jobs: Option<usize>,
    pub globs: Vec<String>,
    pub sort_by: Option<SortBy>,
    pub sort_order: SortOrder,
    pub files: Vec<String>,
}

/// Whether some option asks for a count of its own (which then replaces the
/// default columns of lines and bytes).
pub open spec fn has_count_option(flags: Flags) -> bool {
    flags.lines || flags.words || flags.chars || flags.bytes || flags.longest_line || flags.all
}

/// The number of `true` values among five.
pub open spec fn count_true(a: bool, b: bool, c: bool, d: bool, e: bool) -> nat {
    (if a { 1nat } else { 0nat }) + (if b { 1nat } else { 0nat }) + (if c { 1nat } else { 0nat })
        + (if d { 1nat } else { 0nat }) + (if e { 1nat } else { 0nat })
}

fn flag_count(a: bool, b: bool, c: bool, d: bool, e: bool) -> (n: u8)
    ensures
        n == count_true(a, b, c, d, e),
{
    let mut n: u8 = 0;
    if a {
        n = n + 1;
    }
    if b {
        n = n + 1;
    }
    if c {
        n = n + 1;
    }
    if d {
        n = n + 1;
    }
    if e {
        n = n + 1;
    }
    n
}

impl Config {
    /// Resolves command-line options: lines and bytes are shown unless an option
    /// asks for a count of its own; the "include" options add a column to the
    /// others; `all` shows every count; headings are shown when more than one
    /// count is.
    pub fn from_flags(flags: Flags) -> (config: Config)
        ensures
            config.show_lines == (flags.lines || flags.all || !has_count_option(flags)),
            config.show_words == (flags.words || flags.all || flags.include_words),
            config.show_chars == (flags.chars || flags.all || flags.include_chars),
            config.show_bytes == (flags.bytes || flags.all || !has_count_option(flags)),
            config.show_max_line_length == (flags.longest_line || flags.include_longest_line
                || flags.all),
            config.show_headings == (count_true(
                config.show_lines,
                config.show_words,
                config.show_chars,
                config.show_bytes,
                config.show_max_line_length,
            ) > 1),
            config.human_readable == flags.human_readable,
            !config.self_profile,
            config.jobs == flags.jobs,
            config.sort_by == flags.sort_by,
            config.sort_order == flags.sort_order,
            config.globs == flags.globs,
            config.files == flags.files,
    {
        let has_count_option = flags.lines || flags.words || flags.chars || flags.bytes
            || flags.longest_line || flags.all;
        let show_lines = flags.lines || flags.all || !has_count_option;
        let show_words = flags.words || flags.all || flags.include_words;
        let show_chars = flags.chars || flags.all || flags.include_chars;
        let show_bytes = flags.bytes || flags.all || !has_count_option;
        let show_max_line_length = flags.longest_line || flags.include_longest_line || flags.all;
        let shown_metric_count = flag_count(
            show_lines,
            show_words,
            show_chars,
            show_bytes,
            show_max_line_length,
        );
        Config {
            show_lines,
            show_words,
            show_chars,
            show_bytes,
            show_max_line_length,
            show_headings: shown_metric_count > 1,
            human_readable: flags.human_readable,
            self_profile: false,
            jobs: flags.jobs,
            sort_by: flags.sort_by,
            sort_order: flags.sort_order,
            globs: flags.globs,
            files: flags.files,
        }
    }
}

} // verus!
