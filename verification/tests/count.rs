use xwc::{
    CharState, CountOptions, Counts, LineLengthState, WordState, count_chars,
    count_max_line_length, count_reader, count_words,
};

#[test]
fn counts_newlines_words_chars_and_bytes() {
    let input = "cafe\ncafé\n東京 京都".as_bytes();

    assert_eq!(
        count_reader(
            input,
            CountOptions {
                lines: true,
                words: true,
                chars: true,
                max_line_length: true
            }
        )
        .unwrap(),
        Counts {
            lines: 2,
            words: 4,
            chars: 15,
            bytes: 24,
            max_line_length: 5
        }
    );
}

#[test]
fn skips_word_counting_when_words_are_not_requested() {
    let input = "cafe\ncafé\n東京 京都".as_bytes();

    assert_eq!(
        count_reader(
            input,
            CountOptions {
                lines: true,
                words: false,
                chars: false,
                max_line_length: false
            }
        )
        .unwrap(),
        Counts {
            lines: 2,
            words: 0,
            chars: 0,
            bytes: 24,
            max_line_length: 0
        }
    );
}

#[test]
fn skips_line_counting_when_lines_are_not_requested() {
    let input = "one\ntwo\nthree\n".as_bytes();

    assert_eq!(
        count_reader(
            input,
            CountOptions {
                lines: false,
                words: false,
                chars: false,
                max_line_length: false
            }
        )
        .unwrap(),
        Counts {
            lines: 0,
            words: 0,
            chars: 0,
            bytes: 14,
            max_line_length: 0
        }
    );
}

#[test]
fn counts_max_line_length() {
    let input = "one\nthree\ncafé\n東京 京都".as_bytes();

    assert_eq!(
        count_reader(
            input,
            CountOptions {
                lines: false,
                words: false,
                chars: false,
                max_line_length: true
            }
        )
        .unwrap(),
        Counts {
            lines: 0,
            words: 0,
            chars: 0,
            bytes: 29,
            max_line_length: 5
        }
    );
}

#[test]
fn counts_max_line_length_across_buffer_boundaries() {
    let mut state = LineLengthState::default();
    let input = "ab\ncafé\n東京 京都".as_bytes();
    let mut max_line_length = 0;

    count_max_line_length(&input[..6], &mut state, &mut max_line_length);
    count_max_line_length(&input[6..], &mut state, &mut max_line_length);
    max_line_length = max_line_length.max(state.current_line_length());

    assert_eq!(max_line_length, 5);
}

#[test]
fn counts_words_across_buffer_boundaries() {
    let mut state = WordState::default();

    assert_eq!(count_words(b"hello", &mut state), 1);
    assert_eq!(count_words(b"world\nagain", &mut state), 1);
    assert_eq!(count_words(b" later", &mut state), 1);
}

#[test]
fn counts_utf8_words_across_buffer_boundaries() {
    let mut state = WordState::default();
    let input = "東京 京都".as_bytes();

    assert_eq!(count_words(&input[..4], &mut state), 1);
    assert_eq!(count_words(&input[4..], &mut state), 1);
}

#[test]
fn counts_utf8_chars_across_buffer_boundaries() {
    let mut state = CharState::default();
    let input = "東京 京都".as_bytes();

    assert_eq!(count_chars(&input[..4], &mut state), 1);
    assert_eq!(count_chars(&input[4..], &mut state), 4);
}
