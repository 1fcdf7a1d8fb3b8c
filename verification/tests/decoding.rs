use std::io::Read;

use xwc::{CharState, CountOptions, Counts, WordState, count_chars, count_reader, count_words};

const ALL: CountOptions = CountOptions {
    lines: true,
    words: true,
    chars: true,
    max_line_length: true,
};

/// A reader that hands out its bytes a few at a time.
struct Trickle<'a> {
    data: &'a [u8],
    step: usize,
}

impl Read for Trickle<'_> {
    fn read(&mut self, buf: &mut [u8]) -> std::io::Result<usize> {
        let n = self.step.min(self.data.len()).min(buf.len());
        buf[..n].copy_from_slice(&self.data[..n]);
        self.data = &self.data[n..];
        Ok(n)
    }
}

fn samples() -> Vec<Vec<u8>> {
    vec![
        b"".to_vec(),
        b"one two\nthree\n".to_vec(),
        "cafe\ncafé\n東京 京都".as_bytes().to_vec(),
        "emoji 😀 test\n\u{3000}wide\u{a0}space\u{2028}x".as_bytes().to_vec(),
        b"\xff\xfe plain \x80".to_vec(),
        b"\xe0\x80\xaf \xed\xa0\x80 \xf4\x90\x80\x80".to_vec(),
        b"abc \xe6\x9d".to_vec(),
        b"\xf0\x9f\x98".to_vec(),
        b"line\r\nnext\tcol\x0bv\x0cf\n\n".to_vec(),
        b"\xc2\x85next\xc2\xa0".to_vec(),
    ]
}

#[test]
fn chunked_reading_gives_the_same_counts_as_one_read() {
    for data in samples() {
        let whole = count_reader(data.as_slice(), ALL).unwrap();
        for step in 1..6 {
            let chunked = count_reader(Trickle { data: &data, step }, ALL).unwrap();
            assert_eq!(chunked, whole, "step {step} on {data:?}");
        }
    }
}

#[test]
fn chars_match_lossy_decoding() {
    for data in samples() {
        let counts = count_reader(data.as_slice(), ALL).unwrap();
        let lossy = String::from_utf8_lossy(&data);
        assert_eq!(counts.chars, lossy.chars().count() as u64, "{data:?}");
        assert_eq!(counts.bytes, data.len() as u64);
        assert_eq!(
            counts.words,
            lossy.split_whitespace().count() as u64,
            "{data:?}"
        );
        let longest = lossy
            .split('\n')
            .map(|line| line.chars().count())
            .max()
            .unwrap_or(0);
        assert_eq!(counts.max_line_length, longest as u64, "{data:?}");
        assert_eq!(
            counts.lines,
            data.iter().filter(|&&b| b == b'\n').count() as u64
        );
    }
}

#[test]
fn counts_of_a_stream_are_bounded_by_one_another() {
    for data in samples() {
        let c = count_reader(data.as_slice(), ALL).unwrap();
        assert!(c.lines <= c.bytes);
        assert!(c.chars <= c.bytes);
        assert!(c.words <= c.chars);
        assert!(c.max_line_length <= c.chars);
    }
}

#[test]
fn ill_formed_bytes_count_as_one_character_per_maximal_subpart() {
    let counts = count_reader(&b"\xe0\x80"[..], ALL).unwrap();
    assert_eq!(counts.chars, 2);
    let counts = count_reader(&b"\xe6\x9d\xb1"[..], ALL).unwrap();
    assert_eq!(counts.chars, 1);
    let counts = count_reader(&b"\xe6\x9d"[..], ALL).unwrap();
    assert_eq!(counts.chars, 1);
    assert_eq!(counts.words, 1);
    assert_eq!(counts.max_line_length, 1);
    let counts = count_reader(&b"\xf5\xff"[..], ALL).unwrap();
    assert_eq!(counts.chars, 2);
}

#[test]
fn truncated_sequence_is_held_back_until_the_next_chunk() {
    let mut state = CharState::default();
    assert_eq!(count_chars(b"ab\xe6", &mut state), 2);
    assert_eq!(count_chars(b"\x9d", &mut state), 0);
    assert_eq!(count_chars(b"\xb1c", &mut state), 2);
}

#[test]
fn unicode_white_space_separates_words() {
    let mut state = WordState::default();
    assert_eq!(count_words("a\u{3000}b\u{a0}c\u{85}d".as_bytes(), &mut state), 4);
    let mut state = WordState::default();
    assert_eq!(count_words("a\u{200b}b".as_bytes(), &mut state), 1);
}

#[test]
fn empty_input_counts_nothing() {
    assert_eq!(count_reader(&b""[..], ALL).unwrap(), Counts::default());
}

/// A reader that claims to have read more bytes than it was given room for.
struct Overstating;

impl Read for Overstating {
    fn read(&mut self, buf: &mut [u8]) -> std::io::Result<usize> {
        Ok(buf.len() + 1)
    }
}

/// A reader that fails.
struct Failing;

impl Read for Failing {
    fn read(&mut self, _buf: &mut [u8]) -> std::io::Result<usize> {
        Err(std::io::Error::new(std::io::ErrorKind::PermissionDenied, "denied"))
    }
}

#[test]
fn reader_that_overstates_its_read_is_an_error() {
    let error = count_reader(Overstating, ALL).unwrap_err();
    assert_eq!(error.kind(), std::io::ErrorKind::InvalidData);
}

#[test]
fn reader_errors_are_returned() {
    let error = count_reader(Failing, ALL).unwrap_err();
    assert_eq!(error.kind(), std::io::ErrorKind::PermissionDenied);
}
