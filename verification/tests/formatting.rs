use xwc::{
    Config, Counts, Duration, OutputRow, SortOrder, column_widths, format_byte_count,
    format_duration, format_row, render_rows,
};

fn config() -> Config {
    Config {
        show_lines: true,
        show_words: false,
        show_chars: false,
        show_bytes: true,
        show_max_line_length: false,
        show_headings: true,
        human_readable: false,
        self_profile: false,
        jobs: None,
        sort_by: None,
        sort_order: SortOrder::Asc,
        globs: Vec::new(),
        files: Vec::new(),
    }
}

fn counts(lines: u64, bytes: u64) -> Counts {
    Counts {
        lines,
        words: 0,
        chars: 0,
        bytes,
        max_line_length: 0,
    }
}

fn lay_out(config: &Config, rows: Vec<OutputRow<'_>>) -> String {
    let rendered = render_rows(config, rows);
    let widths = column_widths(&rendered);
    let mut out = String::new();
    for row in &rendered {
        out.push_str(&format_row(row, &widths));
        out.push('\n');
    }
    out
}

#[test]
fn formats_durations_in_each_range() {
    assert_eq!(format_duration(Duration::new(0, 999)), "999ns");
    assert_eq!(format_duration(Duration::new(0, 1_500)), "1.5us");
    assert_eq!(format_duration(Duration::from_micros(12)), "12.0us");
    assert_eq!(format_duration(Duration::new(0, 2_549_000)), "2.5ms");
    assert_eq!(format_duration(Duration::new(0, 2_550_000)), "2.6ms");
    assert_eq!(format_duration(Duration::new(0, 999_999_999)), "1000.0ms");
    assert_eq!(format_duration(Duration::new(1, 5_000_000)), "1.005s");
    assert_eq!(format_duration(Duration::new(12, 345_678_901)), "12.345s");
}

#[test]
fn duration_carries_whole_seconds() {
    let d = Duration::new(1, 2_500_000_000);
    assert_eq!(d.as_secs(), 3);
    assert_eq!(d.subsec_nanos(), 500_000_000);
    assert_eq!(d.as_nanos(), 3_500_000_000);
    assert_eq!(Duration::from_micros(1_000_001).as_nanos(), 1_000_001_000);
}

#[test]
fn formats_small_human_readable_bytes_with_unit() {
    assert_eq!(format_byte_count(14, true), "14B");
    assert_eq!(format_byte_count(0, true), "0B");
    assert_eq!(format_byte_count(1023, true), "1023B");
    assert_eq!(format_byte_count(1536, true), "1.5K");
    assert_eq!(format_byte_count(18_446_744_073_709_551_615, false), "18446744073709551615");
}

#[test]
fn default_table_is_left_aligned() {
    let out = lay_out(
        &config(),
        vec![OutputRow {
            counts: counts(2, 14),
            duration: None,
            label: None,
        }],
    );
    assert_eq!(out, "lines  bytes\n2      14\n");
}

#[test]
fn human_readable_table_uses_size_heading() {
    let mut config = config();
    config.human_readable = true;
    let out = lay_out(
        &config,
        vec![OutputRow {
            counts: counts(2, 14),
            duration: None,
            label: None,
        }],
    );
    assert_eq!(out, "lines  size\n2      14B\n");
}

#[test]
fn labelled_rows_line_up_with_total() {
    let out = lay_out(
        &config(),
        vec![
            OutputRow {
                counts: counts(2, 10),
                duration: None,
                label: Some("a.txt"),
            },
            OutputRow {
                counts: counts(1, 4),
                duration: None,
                label: Some("b.txt"),
            },
            OutputRow {
                counts: counts(3, 14),
                duration: None,
                label: Some("total"),
            },
        ],
    );
    assert_eq!(
        out,
        "lines  bytes  file\n2      10     a.txt\n1      4      b.txt\n3      14     total\n"
    );
}

#[test]
fn every_count_gets_a_column() {
    let mut config = config();
    config.show_words = true;
    config.show_chars = true;
    config.show_max_line_length = true;
    let out = lay_out(
        &config,
        vec![OutputRow {
            counts: Counts {
                lines: 1,
                words: 1,
                chars: 5,
                bytes: 6,
                max_line_length: 4,
            },
            duration: None,
            label: None,
        }],
    );
    assert_eq!(
        out,
        "lines  words  chars  max-line  bytes\n1      1      5      4         6\n"
    );
}

#[test]
fn rows_without_headings_have_only_fields() {
    let mut config = config();
    config.show_headings = false;
    config.show_bytes = false;
    let rendered = render_rows(
        &config,
        vec![OutputRow {
            counts: counts(7, 9),
            duration: None,
            label: None,
        }],
    );
    assert_eq!(rendered, vec![vec!["7".to_owned()]]);
}

#[test]
fn unknown_duration_is_an_empty_cell() {
    let mut config = config();
    config.self_profile = true;
    let rendered = render_rows(
        &config,
        vec![OutputRow {
            counts: counts(1, 2),
            duration: None,
            label: None,
        }],
    );
    assert_eq!(rendered[0], vec!["lines", "bytes", "duration"]);
    assert_eq!(rendered[1], vec!["1", "2", ""]);
}

#[test]
fn column_widths_are_the_longest_cell_in_bytes() {
    let rows = vec![
        vec!["lines".to_owned(), "bytes".to_owned(), "file".to_owned()],
        vec!["12345678".to_owned(), "1".to_owned()],
        vec!["1".to_owned(), "2".to_owned(), "café".to_owned()],
    ];
    assert_eq!(column_widths(&rows), vec![8, 5, 5]);
    assert_eq!(column_widths(&[]), Vec::<usize>::new());
}

#[test]
fn padding_counts_characters_and_the_last_cell_is_not_padded() {
    let row = vec!["café".to_owned(), "x".to_owned(), "end".to_owned()];
    assert_eq!(format_row(&row, &[5, 3, 9]), "café   x    end");
    assert_eq!(format_row(&row, &[2]), "café");
}
