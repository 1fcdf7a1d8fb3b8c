use xwc::{
    CountOptions, CountState, Counts, LineLengthState, ReadStep,
    count_max_line_length, count_reader,
};

const ALL: CountOptions = CountOptions {
    lines: true,
    words: true,
    chars: true,
    max_line_length: true,
};

#[test]
fn feeding_chunks_finishes_with_the_counts_of_the_whole() {
    let data = ["cafe\ncafé\n東京 京都 \u{3000}x".as_bytes(), b"\xff"].concat();
    let mut whole = CountState::new(ALL);
    whole.feed(&data).unwrap();
    for cut in 0..=data.len() {
        let mut state = CountState::new(ALL);
        state.feed(&data[..cut]).unwrap();
        state.feed(&data[cut..]).unwrap();
        assert_eq!(state.finish(), whole.finish(), "cut at {cut}");
    }
    assert_eq!(whole.finish(), count_reader(data.as_slice(), ALL).unwrap());
}

#[test]
fn a_sequence_cut_off_by_the_end_counts_once() {
    let counts = count_reader(&b"a\xe6"[..], ALL).unwrap();
    assert_eq!(counts.chars, 2);
    assert_eq!(counts.max_line_length, 2);
    assert_eq!(counts.words, 1);
    let mut state = CountState::new(ALL);
    state.feed(b"a\xe6").unwrap();
    assert_eq!(state.finish().chars, 2);
    state.feed(b"\x9d\xb1").unwrap();
    assert_eq!(state.finish().chars, 2);
}

#[test]
fn nothing_fed_counts_nothing() {
    assert_eq!(CountState::new(ALL).finish(), Counts::default());
}

#[test]
fn counts_of_streams_joined_at_a_newline_add_up() {
    let pairs: [(&[u8], &[u8]); 3] = [
        (b"one two\n", b"three\nfour five six"),
        ("caf\u{e9}\n".as_bytes(), b"\xe6\x9d x\n"),
        (b"\xf0\x9f\n", b" lead"),
    ];
    for (a, b) in pairs {
        let mut total = count_reader(a, ALL).unwrap();
        total.add_assign(count_reader(b, ALL).unwrap());
        assert_eq!(total, count_reader(&[a, b].concat()[..], ALL).unwrap());
    }
}

#[test]
fn line_lengths_compose_across_any_cut() {
    let input = "ab\ncafé\n東京 京都".as_bytes();
    for cut in 0..=input.len() {
        let mut split = LineLengthState::default();
        let mut split_max = 0;
        count_max_line_length(&input[..cut], &mut split, &mut split_max);
        count_max_line_length(&input[cut..], &mut split, &mut split_max);
        let mut whole = LineLengthState::default();
        let mut whole_max = 0;
        count_max_line_length(input, &mut whole, &mut whole_max);
        assert_eq!(split_max, whole_max);
        assert_eq!(split.current_line_length(), whole.current_line_length());
    }
}

#[test]
fn each_read_outcome_is_taken_as_stated() {
    let mut state = CountState::new(ALL);
    let buffer = b"one two\nthree";
    assert!(matches!(state.take_read(Ok(8), buffer), ReadStep::Continue));
    let denied = std::io::Error::new(std::io::ErrorKind::PermissionDenied, "denied");
    match state.take_read(Err(denied), buffer) {
        ReadStep::Stop(Err(e)) => assert_eq!(e.kind(), std::io::ErrorKind::PermissionDenied),
        _ => panic!("a reader's error stops with that error"),
    }
    match state.take_read(Ok(buffer.len() + 1), buffer) {
        ReadStep::Stop(Err(e)) => assert_eq!(e.kind(), std::io::ErrorKind::InvalidData),
        _ => panic!("an oversized read stops with an error"),
    }
    match state.take_read(Ok(0), buffer) {
        ReadStep::Stop(Ok(c)) => assert_eq!(
            c,
            Counts {
                lines: 1,
                words: 2,
                chars: 8,
                bytes: 8,
                max_line_length: 7
            }
        ),
        _ => panic!("the end of the input stops with the counts"),
    }
}
