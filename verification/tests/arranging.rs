use xwc::{
    Config, Counts, Duration, Flags, OutputRow, SortBy, SortOrder, add_glob_matches,
    arrange_rows, sort_rows, total_counts, worker_count,
};

fn config(sort_by: Option<SortBy>, sort_order: SortOrder) -> Config {
    Config {
        show_lines: true,
        show_words: false,
        show_chars: false,
        show_bytes: true,
        show_max_line_length: false,
        show_headings: true,
        human_readable: false,
        self_profile: false,
        jobs: None,
        sort_by,
        sort_order,
        globs: Vec::new(),
        files: Vec::new(),
    }
}

fn row(lines: u64, bytes: u64, label: &str) -> OutputRow<'_> {
    OutputRow {
        counts: Counts {
            lines,
            words: 0,
            chars: 0,
            bytes,
            max_line_length: lines,
        },
        duration: None,
        label: Some(label),
    }
}

fn labels(rows: &[OutputRow<'_>]) -> Vec<String> {
    rows.iter().map(|r| r.label.unwrap().to_owned()).collect()
}

#[test]
fn sort_rows_keeps_total_out_of_sorted_rows() {
    let rows = vec![row(2, 20, "b.txt"), row(1, 10, "a.txt")];
    let arranged = arrange_rows(&config(Some(SortBy::Bytes), SortOrder::Desc), rows, 2).unwrap();
    assert_eq!(labels(&arranged), vec!["b.txt", "a.txt", "total"]);
    assert_eq!(arranged[2].counts.bytes, 30);
    assert_eq!(arranged[2].counts.lines, 3);
    assert_eq!(arranged[2].counts.max_line_length, 2);
}

#[test]
fn sorting_is_stable_and_follows_the_order() {
    let mut rows = vec![
        row(2, 5, "c"),
        row(1, 5, "b"),
        row(2, 7, "a"),
        row(1, 9, "d"),
    ];
    sort_rows(&config(Some(SortBy::Lines), SortOrder::Asc), &mut rows);
    assert_eq!(labels(&rows), vec!["b", "d", "c", "a"]);
    sort_rows(&config(Some(SortBy::Bytes), SortOrder::Desc), &mut rows);
    assert_eq!(labels(&rows), vec!["d", "a", "b", "c"]);
    sort_rows(&config(Some(SortBy::File), SortOrder::Asc), &mut rows);
    assert_eq!(labels(&rows), vec!["a", "b", "c", "d"]);
    sort_rows(&config(None, SortOrder::Desc), &mut rows);
    assert_eq!(labels(&rows), vec!["a", "b", "c", "d"]);
}

#[test]
fn sorting_by_file_uses_byte_order() {
    let mut rows = vec![row(0, 0, "é"), row(0, 0, "z"), row(0, 0, "Z"), row(0, 0, "")];
    sort_rows(&config(Some(SortBy::File), SortOrder::Asc), &mut rows);
    assert_eq!(labels(&rows), vec!["", "Z", "z", "é"]);
}

#[test]
fn sorting_by_duration_puts_unknown_first() {
    let mut rows = vec![row(0, 0, "slow"), row(0, 0, "none"), row(0, 0, "fast")];
    rows[0].duration = Some(Duration::new(2, 0));
    rows[2].duration = Some(Duration::from_micros(3));
    sort_rows(&config(Some(SortBy::Duration), SortOrder::Asc), &mut rows);
    assert_eq!(labels(&rows), vec!["none", "fast", "slow"]);
}

#[test]
fn single_path_gets_no_total_row() {
    let arranged = arrange_rows(&config(None, SortOrder::Asc), vec![row(1, 1, "a")], 1).unwrap();
    assert_eq!(labels(&arranged), vec!["a"]);
    let arranged = arrange_rows(&config(None, SortOrder::Asc), vec![row(1, 1, "a")], 3).unwrap();
    assert_eq!(labels(&arranged), vec!["a", "total"]);
}

#[test]
fn totals_that_overflow_are_refused() {
    let rows = vec![row(u64::MAX, 1, "a"), row(1, 1, "b")];
    assert_eq!(total_counts(&rows), None);
    assert!(arrange_rows(&config(None, SortOrder::Asc), rows, 2).is_none());
    let rows = vec![row(3, 1, "a"), row(1, 8, "b")];
    let total = total_counts(&rows).unwrap();
    assert_eq!((total.lines, total.bytes, total.max_line_length), (4, 9, 3));
}

#[test]
fn glob_matches_are_added_in_sorted_order() {
    let mut paths = vec!["literal.txt".to_owned()];
    add_glob_matches(
        &mut paths,
        "*.txt",
        vec!["dir/b.txt".to_owned(), "dir/a.txt".to_owned()],
    )
    .unwrap();
    assert_eq!(paths, vec!["literal.txt", "dir/a.txt", "dir/b.txt"]);
}

#[test]
fn input_paths_rejects_globs_without_matches() {
    let mut paths = Vec::new();
    assert_eq!(
        add_glob_matches(&mut paths, "missing-*", Vec::new()).unwrap_err(),
        "missing-*: no matches".to_owned()
    );
    assert!(paths.is_empty());
}

#[test]
fn workers_never_outnumber_paths() {
    let paths: Vec<String> = ["a", "b", "c", "d"].iter().map(|s| s.to_string()).collect();
    assert_eq!(worker_count(&paths, Some(16), None), Some(4));
    assert_eq!(worker_count(&paths, None, Some(2)), Some(2));
    assert_eq!(worker_count(&paths, None, None), Some(1));
    assert_eq!(worker_count(&paths, Some(1), Some(8)), None);
    assert_eq!(worker_count(&paths[..1], Some(4), Some(8)), None);
}

#[test]
fn standard_input_is_counted_serially() {
    let paths: Vec<String> = ["a", "-", "c", "d"].iter().map(|s| s.to_string()).collect();
    assert_eq!(worker_count(&paths, Some(4), Some(8)), None);
}

fn flags() -> Flags {
    Flags {
        lines: false,
        words: false,
        chars: false,
        include_chars: false,
        include_words: false,
        longest_line: false,
        include_longest_line: false,
        bytes: false,
        all: false,
        human_readable: false,
        jobs: None,
        globs: Vec::new(),
        sort_by: None,
        sort_order: SortOrder::Asc,
        files: Vec::new(),
    }
}

fn shown(config: &Config) -> [bool; 6] {
    [
        config.show_lines,
        config.show_words,
        config.show_chars,
        config.show_max_line_length,
        config.show_bytes,
        config.show_headings,
    ]
}

#[test]
fn default_config_counts_lines_and_bytes() {
    let config = Config::from_flags(flags());
    assert_eq!(shown(&config), [true, false, false, false, true, true]);
    assert!(!config.human_readable && !config.self_profile);
}

#[test]
fn include_options_add_to_default_columns() {
    let mut f = flags();
    f.include_words = true;
    assert_eq!(shown(&Config::from_flags(f)), [true, true, false, false, true, true]);
    let mut f = flags();
    f.include_chars = true;
    assert_eq!(shown(&Config::from_flags(f)), [true, false, true, false, true, true]);
    let mut f = flags();
    f.include_longest_line = true;
    assert_eq!(shown(&Config::from_flags(f)), [true, false, false, true, true, true]);
}

#[test]
fn count_options_replace_default_columns() {
    let mut f = flags();
    f.longest_line = true;
    assert_eq!(shown(&Config::from_flags(f)), [false, false, false, true, false, false]);
    let mut f = flags();
    f.words = true;
    assert_eq!(shown(&Config::from_flags(f)), [false, true, false, false, false, false]);
    let mut f = flags();
    f.chars = true;
    f.bytes = true;
    assert_eq!(shown(&Config::from_flags(f)), [false, false, true, false, true, true]);
    let mut f = flags();
    f.all = true;
    f.human_readable = true;
    f.jobs = Some(3);
    f.sort_by = Some(SortBy::Bytes);
    f.sort_order = SortOrder::Desc;
    f.files = vec!["a".to_owned()];
    let config = Config::from_flags(f);
    assert_eq!(shown(&config), [true, true, true, true, true, true]);
    assert!(config.human_readable);
    assert_eq!(config.jobs, Some(3));
    assert_eq!(config.sort_by, Some(SortBy::Bytes));
    assert_eq!(config.sort_order, SortOrder::Desc);
    assert_eq!(config.files, vec!["a".to_owned()]);
}

#[test]
fn count_options_follow_the_shown_columns() {
    let mut f = flags();
    f.all = true;
    let options = Config::from_flags(f).count_options();
    assert!(options.lines && options.words && options.chars && options.max_line_length);
    assert!(!options.bytes_only());
    let mut f = flags();
    f.bytes = true;
    assert!(Config::from_flags(f).count_options().bytes_only());
}

#[test]
fn adding_counts_sums_and_keeps_the_longest_line() {
    let mut total = Counts {
        lines: 1,
        words: 2,
        chars: 3,
        bytes: 4,
        max_line_length: 9,
    };
    let more = Counts {
        lines: 10,
        words: 20,
        chars: 30,
        bytes: 40,
        max_line_length: 5,
    };
    assert!(total.can_add(&more));
    total.add_assign(more);
    assert_eq!(
        total,
        Counts {
            lines: 11,
            words: 22,
            chars: 33,
            bytes: 44,
            max_line_length: 9
        }
    );
    let big = Counts {
        bytes: u64::MAX,
        ..Counts::default()
    };
    assert!(!total.can_add(&big));
}
