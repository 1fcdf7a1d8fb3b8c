use xwc::{Config, Counts, Duration, OutputRow, SortOrder, format_byte_count, render_rows};

fn default_config() -> Config {
    Config {
        show_lines: true,
        show_words: false,
        show_chars: false,
        show_bytes: true,
        show_max_line_length: false,
        show_headings: true,
        human_readable: false,
        self_profile: false,
        jobs: None,
        sort_by: None,
        sort_order: SortOrder::Asc,
        globs: Vec::new(),
        files: Vec::new(),
    }
}

#[test]
fn renders_default_headings_and_fields() {
    let rendered = render_rows(
        &default_config(),
        vec![OutputRow {
            counts: Counts {
                lines: 2,
                words: 0,
                chars: 0,
                bytes: 14,
                max_line_length: 0,
            },
            duration: None,
            label: None,
        }],
    );

    assert_eq!(
        rendered,
        vec![
            vec!["lines".to_owned(), "bytes".to_owned()],
            vec!["2".to_owned(), "14".to_owned()],
        ]
    );
}

#[test]
fn renders_label_heading_when_any_row_has_label() {
    let rendered = render_rows(
        &default_config(),
        vec![OutputRow {
            counts: Counts {
                lines: 2,
                words: 0,
                chars: 0,
                bytes: 14,
                max_line_length: 0,
            },
            duration: None,
            label: Some("a.txt"),
        }],
    );

    assert_eq!(
        rendered,
        vec![
            vec!["lines".to_owned(), "bytes".to_owned(), "file".to_owned()],
            vec!["2".to_owned(), "14".to_owned(), "a.txt".to_owned()],
        ]
    );
}

#[test]
fn formats_human_readable_bytes() {
    assert_eq!(format_byte_count(1024, true), "1.0K");
    assert_eq!(format_byte_count(1024, false), "1024");
}

#[test]
fn renders_duration_column_when_self_profiled() {
    let mut config = default_config();
    config.self_profile = true;
    let rendered = render_rows(
        &config,
        vec![OutputRow {
            counts: Counts {
                lines: 2,
                words: 0,
                chars: 0,
                bytes: 14,
                max_line_length: 0,
            },
            duration: Some(Duration::from_micros(12)),
            label: Some("a.txt"),
        }],
    );

    assert_eq!(
        rendered,
        vec![
            vec![
                "lines".to_owned(),
                "bytes".to_owned(),
                "file".to_owned(),
                "duration".to_owned()
            ],
            vec![
                "2".to_owned(),
                "14".to_owned(),
                "a.txt".to_owned(),
                "12.0us".to_owned()
            ],
        ]
    );
}
