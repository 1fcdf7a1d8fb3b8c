//! Counting newlines, words, characters, bytes and the longest line of a byte
//! stream that arrives in chunks.

use vstd::prelude::*;
use vstd::slice::slice_subrange;
use crate::decode;
use crate::decode::{Scan, Unit, scan};

verus! {

const BUFFER_SIZE: usize = 64 * 1024;

/// The counts of one input.
#[derive(Clone, Copy, Debug, Default, PartialEq, Eq, Structural)]
pub struct Counts {
    pub lines: u64,
    pub words: u64,
    pub chars: u64,
    pub bytes: u64,
    pub max_line_length: u64,
}

impl Counts {
    /// Adds the counts of another input: lines, words, characters and bytes add
    /// up, and the longest line is the longer of the two.
    pub fn add_assign(&mut self, rhs: Counts)
        requires
            old(self).lines + rhs.lines <= u64::MAX,
            old(self).words + rhs.words <= u64::MAX,
            old(self).chars + rhs.chars <= u64::MAX,
            old(self).bytes + rhs.bytes <= u64::MAX,
        ensures
            final(self).lines == old(self).lines + rhs.lines,
            final(self).words == old(self).words + rhs.words,
            final(self).chars == old(self).chars + rhs.chars,
            final(self).bytes == old(self).bytes + rhs.bytes,
            final(self).max_line_length == if old(self).max_line_length >= rhs.max_line_length {
                old(self).max_line_length
            } else {
                rhs.max_line_length
            },
    {
        self.lines = self.lines + rhs.lines;
        self.words = self.words + rhs.words;
        self.chars = self.chars + rhs.chars;
        self.bytes = self.bytes + rhs.bytes;
        if rhs.max_line_length > self.max_line_length {
            self.max_line_length = rhs.max_line_length;
        }
    }

    /// Whether adding `rhs` keeps every count within a `u64`.
    pub fn can_add(&self, rhs: &Counts) -> (r: bool)
        ensures
            r == (self.lines + rhs.lines <= u64::MAX && self.words + rhs.words <= u64::MAX
                && self.chars + rhs.chars <= u64::MAX && self.bytes + rhs.bytes <= u64::MAX),
    {
        self.lines <= u64::MAX - rhs.lines && self.words <= u64::MAX - rhs.words && self.chars
            <= u64::MAX - rhs.chars && self.bytes <= u64::MAX - rhs.bytes
    }
}

/// Which counts beyond the byte count to compute.
#[derive(Clone, Copy, Debug, Default, PartialEq, Eq, Structural)]
pub struct CountOptions {
    pub lines: bool,
    pub words: bool,
    pub chars: bool,
    pub max_line_length: bool,
}

impl CountOptions {
    /// Whether only the byte count is asked for, so that the size of a regular
    /// file answers it without reading the file.
    pub fn bytes_only(&self) -> (r: bool)
        ensures
            r == (!self.lines && !self.words && !self.chars && !self.max_line_length),
    {
        !self.lines && !self.words && !self.chars && !self.max_line_length
    }
}


/// The Unicode White_Space property (PropList.txt): the scalar values that
/// `char::is_whitespace` accepts.
pub open spec fn is_white_space(c: u32) -> bool {
    ||| 0x09 <= c <= 0x0d
    ||| c == 0x20
    ||| c == 0x85
    ||| c == 0xa0
    ||| c == 0x1680
    ||| 0x2000 <= c <= 0x200a
    ||| c == 0x2028
    ||| c == 0x2029
    ||| c == 0x202f
    ||| c == 0x205f
    ||| c == 0x3000
}

/// Whether a unit separates words. A malformed unit is part of a word.
pub open spec fn is_space_unit(u: Unit) -> bool {
    match u {
        Unit::Scalar(c) => is_white_space(c),
        Unit::Malformed => false,
    }
}

/// The number of newline bytes.
pub open spec fn newline_count(bytes: Seq<u8>) -> nat
    decreases bytes.len(),
{
    if bytes.len() == 0 {
        0
    } else {
        newline_count(bytes.drop_last()) + if bytes.last() == 0x0a {
            1nat
        } else {
            0nat
        }
    }
}

/// Whether the last unit seen was part of a word, starting from `in_word`.
pub open spec fn in_word_after(in_word: bool, units: Seq<Unit>) -> bool {
    if units.len() == 0 {
        in_word
    } else {
        !is_space_unit(units.last())
    }
}

/// The number of words that begin in `units` when the units before them ended
/// inside a word exactly when `in_word` holds.
pub open spec fn word_starts(in_word: bool, units: Seq<Unit>) -> nat
    decreases units.len(),
{
    if units.len() == 0 {
        0
    } else {
        let before = units.drop_last();
        word_starts(in_word, before) + if !is_space_unit(units.last()) && !in_word_after(
            in_word,
            before,
        ) {
            1nat
        } else {
            0nat
        }
    }
}

/// The length of the current line and of the longest finished line after `units`,
/// starting from a current line of `current` units and a longest line of `longest`.
pub open spec fn line_fold(current: nat, longest: nat, units: Seq<Unit>) -> (nat, nat)
    decreases units.len(),
{
    if units.len() == 0 {
        (current, longest)
    } else {
        let (c, m) = line_fold(current, longest, units.drop_last());
        if units.last() == Unit::Scalar(0x0a) {
            (0, if c > m {
                c
            } else {
                m
            })
        } else {
            (c + 1, m)
        }
    }
}

/// The number of characters of a stream: one per unit.
pub open spec fn char_total(data: Seq<u8>) -> nat {
    decode::decode_units(data).len()
}

/// The number of words of a stream: maximal runs of units that are not white space.
pub open spec fn word_total(data: Seq<u8>) -> nat {
    word_starts(false, decode::decode_units(data))
}

/// The number of units of the longest line of a stream, the newline not counted.
pub open spec fn longest_line(data: Seq<u8>) -> nat {
    let (c, m) = line_fold(0, 0, decode::decode_units(data));
    if c > m {
        c
    } else {
        m
    }
}

/// The counts of the stream `data`, with the counts that `options` leaves out at 0.
pub open spec fn counts_match(c: Counts, data: Seq<u8>, options: CountOptions) -> bool {
    &&& c.bytes == data.len()
    &&& c.lines == if options.lines {
        newline_count(data)
    } else {
        0
    }
    &&& c.words == if options.words {
        word_total(data)
    } else {
        0
    }
    &&& c.chars == if options.chars {
        char_total(data)
    } else {
        0
    }
    &&& c.max_line_length == if options.max_line_length {
        longest_line(data)
    } else {
        0
    }
}

/// Newlines of two pieces add up.
pub proof fn lemma_newline_count_concat(a: Seq<u8>, b: Seq<u8>)
    ensures
        newline_count(a + b) == newline_count(a) + newline_count(b),
    decreases b.len(),
{
    if b.len() == 0 {
        assert(a + b =~= a);
    } else {
        assert((a + b).drop_last() =~= a + b.drop_last());
        lemma_newline_count_concat(a, b.drop_last());
    }
}

/// There are no more newlines than bytes.
pub proof fn lemma_newline_count_bound(a: Seq<u8>)
    ensures
        newline_count(a) <= a.len(),
    decreases a.len(),
{
    if a.len() > 0 {
        lemma_newline_count_bound(a.drop_last());
    }
}

/// Counting words of two pieces, the second starting where the first left off,
/// gives the words of the whole.
pub proof fn lemma_word_starts_concat(in_word: bool, x: Seq<Unit>, y: Seq<Unit>)
    ensures
        word_starts(in_word, x + y) == word_starts(in_word, x) + word_starts(
            in_word_after(in_word, x),
            y,
        ),
        in_word_after(in_word, x + y) == in_word_after(in_word_after(in_word, x), y),
    decreases y.len(),
{
    if y.len() == 0 {
        assert(x + y =~= x);
    } else {
        assert((x + y).drop_last() =~= x + y.drop_last());
        lemma_word_starts_concat(in_word, x, y.drop_last());
    }
}

/// There are no more words than units.
pub proof fn lemma_word_starts_bound(in_word: bool, units: Seq<Unit>)
    ensures
        word_starts(in_word, units) <= units.len(),
    decreases units.len(),
{
    if units.len() > 0 {
        lemma_word_starts_bound(in_word, units.drop_last());
    }
}

/// Folding line lengths over two pieces, the second starting where the first left
/// off, gives the fold over the whole.
pub proof fn lemma_line_fold_concat(current: nat, longest: nat, x: Seq<Unit>, y: Seq<Unit>)
    ensures
        line_fold(current, longest, x + y) == line_fold(
            line_fold(current, longest, x).0,
            line_fold(current, longest, x).1,
            y,
        ),
    decreases y.len(),
{
    if y.len() == 0 {
        assert(x + y =~= x);
    } else {
        assert((x + y).drop_last() =~= x + y.drop_last());
        lemma_line_fold_concat(current, longest, x, y.drop_last());
    }
}

/// The current line grows by at most one unit per unit, and the longest line
/// is no longer than the longest before or the current line grown by all units.
pub proof fn lemma_line_fold_bound(current: nat, longest: nat, units: Seq<Unit>)
    ensures
        line_fold(current, longest, units).0 <= current + units.len(),
        line_fold(current, longest, units).1 <= longest || line_fold(current, longest, units).1
            <= current + units.len(),
    decreases units.len(),
{
    if units.len() > 0 {
        lemma_line_fold_bound(current, longest, units.drop_last());
    }
}


/// Decoding state for counting characters across chunks: the bytes of a
/// sequence that the last chunk cut off.
#[derive(Debug)]
pub struct CharState {
    pending_utf8: Vec<u8>,
}

impl CharState {
    /// The bytes held back for the next chunk.
    pub closed spec fn pending(&self) -> Seq<u8> {
        self.pending_utf8@
    }

    /// A state with nothing held back.
    pub fn new() -> (s: Self)
        ensures
            s.pending() == Seq::<u8>::empty(),
    {
        CharState { pending_utf8: Vec::new() }
    }
}

impl Default for CharState {
    fn default() -> (s: Self)
        ensures
            s.pending() == Seq::<u8>::empty(),
    {
        CharState::new()
    }
}

/// `memchr::memchr_iter(b'\n', buffer).count()`: the number of occurrences of the
/// newline byte in the buffer.
#[verifier::external_body]
fn bytecount_newlines(buffer: &[u8]) -> (n: usize)
    ensures
        n == newline_count(buffer@),
{
    memchr::memchr_iter(b'\n', buffer).count()
}

/// Appends `bytes[start..]` to `pending`.
fn hold_back(bytes: &[u8], start: usize, pending: &mut Vec<u8>)
    requires
        start <= bytes@.len(),
    ensures
        final(pending)@ == old(pending)@ + bytes@.skip(start as int),
{
    let rest = slice_subrange(bytes, start, bytes.len());
    let ghost before = pending@;
    pending.extend_from_slice(rest);
    assert(pending@ =~= before + bytes@.skip(start as int));
}

/// Counts the complete units of `bytes` and holds back a truncated sequence at its end.
fn tally_chars(bytes: &[u8], pending: &mut Vec<u8>) -> (chars: usize)
    requires
        old(pending)@.len() == 0,
    ensures
        chars == decode::complete_units(bytes@).len(),
        final(pending)@ == decode::pending_tail(bytes@),
{
    let len = bytes.len();
    let mut offset: usize = 0;
    let mut chars: usize = 0;
    let ghost mut done: Seq<Unit> = Seq::empty();
    assert(bytes@.skip(0) =~= bytes@);
    assert(done + decode::complete_units(bytes@) =~= decode::complete_units(bytes@));
    loop
        invariant_except_break
            len == bytes@.len(),
            offset <= len,
            pending@.len() == 0,
            decode::complete_units(bytes@) == done + decode::complete_units(
                bytes@.skip(offset as int),
            ),
            decode::pending_tail(bytes@) == decode::pending_tail(bytes@.skip(offset as int)),
            chars == done.len(),
            done.len() <= offset,
        ensures
            chars == decode::complete_units(bytes@).len(),
            pending@ == decode::pending_tail(bytes@),
        decreases len - offset,
    {
        let ghost rest = bytes@.skip(offset as int);
        if offset == len {
            assert(rest =~= Seq::<u8>::empty());
            assert(done + Seq::<Unit>::empty() =~= done);
            break;
        }
        let scanned = scan(bytes, offset);
        proof {
            decode::lemma_scan_len(rest);
        }
        match scanned {
            Scan::Truncated => {
                hold_back(bytes, offset, pending);
                assert(pending@ =~= rest);
                assert(done + Seq::<Unit>::empty() =~= done);
                break;
            },
            Scan::Scalar { len: n, .. } | Scan::Malformed { len: n } => {
                proof {
                    assert(rest.skip(n as int) =~= bytes@.skip(offset + n));
                    assert(decode::complete_units(rest) == seq![decode::unit_of(scanned)]
                        + decode::complete_units(rest.skip(n as int)));
                    assert(done + decode::complete_units(rest) =~= done.push(
                        decode::unit_of(scanned),
                    ) + decode::complete_units(rest.skip(n as int)));
                    done = done.push(decode::unit_of(scanned));
                }
                chars = chars + 1;
                offset = offset + n;
            },
        }
    }
    chars
}

/// Counts the characters of a chunk: every well-formed sequence and every
/// maximal ill-formed subpart is one character. Bytes of a sequence that the
/// chunk cuts off are held back in `state` for the next chunk.
pub fn count_chars(buffer: &[u8], state: &mut CharState) -> (chars: usize)
    ensures
        chars == decode::complete_units(old(state).pending() + buffer@).len(),
        final(state).pending() == decode::pending_tail(old(state).pending() + buffer@),
{
    if state.pending_utf8.len() == 0 {
        assert(state.pending_utf8@ + buffer@ =~= buffer@);
        tally_chars(buffer, &mut state.pending_utf8)
    } else {
        let mut combined: Vec<u8> = Vec::new();
        std::mem::swap(&mut combined, &mut state.pending_utf8);
        let ghost held = combined@;
        combined.extend_from_slice(buffer);
        assert(combined@ =~= held + buffer@);
        tally_chars(combined.as_slice(), &mut state.pending_utf8)
    }
}


/// Decoding state for counting words across chunks: whether the last unit was
/// part of a word, and the bytes of a sequence that the last chunk cut off.
#[derive(Debug)]
pub struct WordState {
    in_word: bool,
    pending_utf8: Vec<u8>,
}

impl WordState {
    /// Whether the last unit seen was part of a word.
    pub closed spec fn in_word(&self) -> bool {
        self.in_word
    }

    /// The bytes held back for the next chunk.
    pub closed spec fn pending(&self) -> Seq<u8> {
        self.pending_utf8@
    }

    /// A state outside any word, with nothing held back.
    pub fn new() -> (s: Self)
        ensures
            !s.in_word(),
            s.pending() == Seq::<u8>::empty(),
    {
        WordState { in_word: false, pending_utf8: Vec::new() }
    }
}

impl Default for WordState {
    fn default() -> (s: Self)
        ensures
            !s.in_word(),
            s.pending() == Seq::<u8>::empty(),
    {
        WordState::new()
    }
}

/// `char::from_u32`: the char whose value is `value`, if `value` is a Unicode
/// scalar value.
#[verifier::external_body]
fn char_from_u32(value: u32) -> (c: Option<char>)
    ensures
        c is Some <==> vstd::utf8::is_scalar(value),
        c matches Some(ch) ==> ch as u32 == value,
{
    char::from_u32(value)
}

/// `char::is_whitespace`: whether the char has the Unicode White_Space property.
#[verifier::external_body]
fn char_is_whitespace(c: char) -> (r: bool)
    ensures
        r == is_white_space(c as u32),
{
    c.is_whitespace()
}

/// Whether the scalar value `value` is white space.
fn scalar_is_whitespace(value: u32) -> (r: bool)
    ensures
        r == is_white_space(value),
{
    match char_from_u32(value) {
        Some(c) => char_is_whitespace(c),
        None => false,
    }
}

/// Counts the words that begin in the complete units of `bytes` and holds back a
/// truncated sequence at its end.
fn tally_words(bytes: &[u8], in_word: &mut bool, pending: &mut Vec<u8>) -> (words: usize)
    requires
        old(pending)@.len() == 0,
    ensures
        words == word_starts(*old(in_word), decode::complete_units(bytes@)),
        *final(in_word) == in_word_after(*old(in_word), decode::complete_units(bytes@)),
        final(pending)@ == decode::pending_tail(bytes@),
{
    let len = bytes.len();
    let mut offset: usize = 0;
    let mut words: usize = 0;
    let ghost start = *in_word;
    let ghost mut done: Seq<Unit> = Seq::empty();
    assert(bytes@.skip(0) =~= bytes@);
    assert(done + decode::complete_units(bytes@) =~= decode::complete_units(bytes@));
    loop
        invariant_except_break
            len == bytes@.len(),
            offset <= len,
            pending@.len() == 0,
            decode::complete_units(bytes@) == done + decode::complete_units(
                bytes@.skip(offset as int),
            ),
            decode::pending_tail(bytes@) == decode::pending_tail(bytes@.skip(offset as int)),
            words == word_starts(start, done),
            *in_word == in_word_after(start, done),
            words <= done.len(),
            done.len() <= offset,
        ensures
            words == word_starts(start, decode::complete_units(bytes@)),
            *in_word == in_word_after(start, decode::complete_units(bytes@)),
            pending@ == decode::pending_tail(bytes@),
        decreases len - offset,
    {
        let ghost rest = bytes@.skip(offset as int);
        if offset == len {
            assert(rest =~= Seq::<u8>::empty());
            assert(done + Seq::<Unit>::empty() =~= done);
            break;
        }
        let scanned = scan(bytes, offset);
        proof {
            decode::lemma_scan_len(rest);
        }
        let n = match scanned {
            Scan::Truncated => {
                hold_back(bytes, offset, pending);
                assert(pending@ =~= rest);
                assert(done + Seq::<Unit>::empty() =~= done);
                break;
            },
            Scan::Scalar { value, len: n } => {
                if scalar_is_whitespace(value) {
                    *in_word = false;
                } else if !*in_word {
                    words = words + 1;
                    *in_word = true;
                }
                n
            },
            Scan::Malformed { len: n } => {
                if !*in_word {
                    words = words + 1;
                    *in_word = true;
                }
                n
            },
        };
        proof {
            let u = decode::unit_of(scanned);
            assert(rest.skip(n as int) =~= bytes@.skip(offset + n));
            assert(decode::complete_units(rest) == seq![u] + decode::complete_units(
                rest.skip(n as int),
            ));
            assert(done + decode::complete_units(rest) =~= done.push(u) + decode::complete_units(
                rest.skip(n as int),
            ));
            assert(done.push(u).drop_last() =~= done);
            done = done.push(u);
        }
        offset = offset + n;
    }
    words
}

/// Counts the words that begin in a chunk. Words are separated by white space;
/// an ill-formed byte sequence is part of a word. A word may continue from the
/// previous chunk, and bytes of a sequence that the chunk cuts off are held back
/// in `state` for the next chunk.
pub fn count_words(buffer: &[u8], state: &mut WordState) -> (words: usize)
    ensures
        words == word_starts(
            old(state).in_word(),
            decode::complete_units(old(state).pending() + buffer@),
        ),
        final(state).in_word() == in_word_after(
            old(state).in_word(),
            decode::complete_units(old(state).pending() + buffer@),
        ),
        final(state).pending() == decode::pending_tail(old(state).pending() + buffer@),
{
    if state.pending_utf8.len() == 0 {
        assert(state.pending_utf8@ + buffer@ =~= buffer@);
        tally_words(buffer, &mut state.in_word, &mut state.pending_utf8)
    } else {
        let mut combined: Vec<u8> = Vec::new();
        std::mem::swap(&mut combined, &mut state.pending_utf8);
        let ghost held = combined@;
        combined.extend_from_slice(buffer);
        assert(combined@ =~= held + buffer@);
        tally_words(combined.as_slice(), &mut state.in_word, &mut state.pending_utf8)
    }
}


/// Decoding state for the longest line across chunks: the length of the line so
/// far, and the bytes of a sequence that the last chunk cut off.
#[derive(Debug)]
pub struct LineLengthState {
    pending_utf8: Vec<u8>,
    current_line_length: u64,
}

impl LineLengthState {
    /// The number of units of the unfinished line.
    pub closed spec fn current(&self) -> u64 {
        self.current_line_length
    }

    /// The bytes held back for the next chunk.
    pub closed spec fn pending(&self) -> Seq<u8> {
        self.pending_utf8@
    }

    /// A state at the start of a line, with nothing held back.
    pub fn new() -> (s: Self)
        ensures
            s.current() == 0,
            s.pending() == Seq::<u8>::empty(),
    {
        LineLengthState { pending_utf8: Vec::new(), current_line_length: 0 }
    }

    /// The number of units of the unfinished line.
    pub fn current_line_length(&self) -> (n: u64)
        ensures
            n == self.current(),
    {
        self.current_line_length
    }
}

impl Default for LineLengthState {
    fn default() -> (s: Self)
        ensures
            s.current() == 0,
            s.pending() == Seq::<u8>::empty(),
    {
        LineLengthState::new()
    }
}

/// Takes one unit into account: a newline ends the current line, which may then
/// be the longest; any other unit lengthens the current line.
fn update_max_line_length(is_newline: bool, current: &mut u64, max_line_length: &mut u64)
    requires
        *old(current) < u64::MAX,
    ensures
        is_newline ==> *final(current) == 0 && *final(max_line_length) == if *old(current)
            > *old(max_line_length) {
            *old(current)
        } else {
            *old(max_line_length)
        },
        !is_newline ==> *final(current) == *old(current) + 1 && *final(max_line_length)
            == *old(max_line_length),
{
    if is_newline {
        if *current > *max_line_length {
            *max_line_length = *current;
        }
        *current = 0;
    } else {
        *current = *current + 1;
    }
}

/// Folds the line lengths over the complete units of `bytes` and holds back a
/// truncated sequence at its end.
fn tally_line_lengths(bytes: &[u8], current: &mut u64, longest: &mut u64, pending: &mut Vec<u8>)
    requires
        old(pending)@.len() == 0,
        *old(current) + bytes@.len() <= u64::MAX,
    ensures
        (*final(current) as nat, *final(longest) as nat) == line_fold(
            *old(current) as nat,
            *old(longest) as nat,
            decode::complete_units(bytes@),
        ),
        final(pending)@ == decode::pending_tail(bytes@),
{
    let len = bytes.len();
    let mut offset: usize = 0;
    let ghost start_current = *current as nat;
    let ghost start_longest = *longest as nat;
    let ghost mut done: Seq<Unit> = Seq::empty();
    assert(bytes@.skip(0) =~= bytes@);
    assert(done + decode::complete_units(bytes@) =~= decode::complete_units(bytes@));
    loop
        invariant_except_break
            len == bytes@.len(),
            offset <= len,
            pending@.len() == 0,
            decode::complete_units(bytes@) == done + decode::complete_units(
                bytes@.skip(offset as int),
            ),
            decode::pending_tail(bytes@) == decode::pending_tail(bytes@.skip(offset as int)),
            (*current as nat, *longest as nat) == line_fold(start_current, start_longest, done),
            *current <= start_current + done.len(),
            start_current + len <= u64::MAX,
            done.len() <= offset,
        ensures
            (*current as nat, *longest as nat) == line_fold(
                start_current,
                start_longest,
                decode::complete_units(bytes@),
            ),
            pending@ == decode::pending_tail(bytes@),
        decreases len - offset,
    {
        let ghost rest = bytes@.skip(offset as int);
        if offset == len {
            assert(rest =~= Seq::<u8>::empty());
            assert(done + Seq::<Unit>::empty() =~= done);
            break;
        }
        let scanned = scan(bytes, offset);
        proof {
            decode::lemma_scan_len(rest);
        }
        let n = match scanned {
            Scan::Truncated => {
                hold_back(bytes, offset, pending);
                assert(pending@ =~= rest);
                assert(done + Seq::<Unit>::empty() =~= done);
                break;
            },
            Scan::Scalar { value, len: n } => {
                update_max_line_length(value == 0x0a, current, longest);
                n
            },
            Scan::Malformed { len: n } => {
                update_max_line_length(false, current, longest);
                n
            },
        };
        proof {
            let u = decode::unit_of(scanned);
            assert(rest.skip(n as int) =~= bytes@.skip(offset + n));
            assert(decode::complete_units(rest) == seq![u] + decode::complete_units(
                rest.skip(n as int),
            ));
            assert(done + decode::complete_units(rest) =~= done.push(u) + decode::complete_units(
                rest.skip(n as int),
            ));
            assert(done.push(u).drop_last() =~= done);
            done = done.push(u);
        }
        offset = offset + n;
    }
}

/// Follows the line lengths through a chunk: `max_line_length` becomes the
/// longest of itself and the lines that end in the chunk, and the state keeps
/// the length of the unfinished line. Every character, and every maximal
/// ill-formed subpart, counts as one. Bytes of a sequence that the chunk cuts
/// off are held back in `state` for the next chunk.
pub fn count_max_line_length(buffer: &[u8], state: &mut LineLengthState, max_line_length: &mut u64)
    requires
        old(state).current() + old(state).pending().len() + buffer@.len() <= u64::MAX,
    ensures
        (final(state).current() as nat, *final(max_line_length) as nat) == line_fold(
            old(state).current() as nat,
            *old(max_line_length) as nat,
            decode::complete_units(old(state).pending() + buffer@),
        ),
        final(state).pending() == decode::pending_tail(old(state).pending() + buffer@),
{
    if state.pending_utf8.len() == 0 {
        assert(state.pending_utf8@ + buffer@ =~= buffer@);
        tally_line_lengths(
            buffer,
            &mut state.current_line_length,
            max_line_length,
            &mut state.pending_utf8,
        )
    } else {
        let mut combined: Vec<u8> = Vec::new();
        std::mem::swap(&mut combined, &mut state.pending_utf8);
        let ghost held = combined@;
        combined.extend_from_slice(buffer);
        assert(combined@ =~= held + buffer@);
        tally_line_lengths(
            combined.as_slice(),
            &mut state.current_line_length,
            max_line_length,
            &mut state.pending_utf8,
        )
    }
}


/// Counting in two chunks is counting in one: feeding `a` and then `b` to
/// `count_chars`, `count_words` or `count_max_line_length`, starting from a
/// state that holds `pending` back (and, for words, is inside a word exactly
/// when `in_word`; for line lengths, has a current line of `current` and a
/// longest line of `longest`), gives the same totals and leaves the same state
/// as feeding them `a + b` at once.
pub proof fn lemma_chunks_compose(
    in_word: bool,
    current: nat,
    longest: nat,
    pending: Seq<u8>,
    a: Seq<u8>,
    b: Seq<u8>,
)
    ensures
        ({
            let first = decode::complete_units(pending + a);
            let held = decode::pending_tail(pending + a);
            let second = decode::complete_units(held + b);
            let whole = decode::complete_units(pending + (a + b));
            &&& first.len() + second.len() == whole.len()
            &&& decode::pending_tail(held + b) == decode::pending_tail(pending + (a + b))
            &&& word_starts(in_word, first) + word_starts(in_word_after(in_word, first), second)
                == word_starts(in_word, whole)
            &&& in_word_after(in_word_after(in_word, first), second) == in_word_after(
                in_word,
                whole,
            )
            &&& line_fold(
                line_fold(current, longest, first).0,
                line_fold(current, longest, first).1,
                second,
            ) == line_fold(current, longest, whole)
            &&& current + pending.len() + a.len() + b.len() <= u64::MAX ==> line_fold(
                current,
                longest,
                first,
            ).0 + held.len() + b.len() <= u64::MAX
        }),
{
    let first = decode::complete_units(pending + a);
    let held = decode::pending_tail(pending + a);
    let second = decode::complete_units(held + b);
    assert(pending + (a + b) =~= (pending + a) + b);
    decode::lemma_units_split(pending + a, b);
    lemma_word_starts_concat(in_word, first, second);
    lemma_line_fold_concat(current, longest, first, second);
    lemma_line_fold_bound(current, longest, first);
    decode::lemma_units_bound(pending + a);
}

/// Folding from a longest line of `longest` is folding from none and then
/// taking the longer of `longest` and the result.
pub proof fn lemma_line_fold_longest(current: nat, longest: nat, units: Seq<Unit>)
    ensures
        line_fold(current, longest, units).0 == line_fold(current, 0, units).0,
        line_fold(current, longest, units).1 == if line_fold(current, 0, units).1 >= longest {
            line_fold(current, 0, units).1
        } else {
            longest
        },
    decreases units.len(),
{
    if units.len() > 0 {
        lemma_line_fold_longest(current, longest, units.drop_last());
    }
}

/// Counting two streams, the first ending with a newline, and adding their
/// counts (as `Counts::add_assign` does) gives the counts of the two streams
/// one after the other: lines, words, characters and bytes add up, and the
/// longest line is the longer of the two.
pub proof fn lemma_counts_concat_at_newline(
    c1: Counts,
    c2: Counts,
    a: Seq<u8>,
    b: Seq<u8>,
    options: CountOptions,
)
    requires
        counts_match(c1, a, options),
        counts_match(c2, b, options),
        a.len() > 0,
        a.last() == 0x0a,
        c1.lines + c2.lines <= u64::MAX,
        c1.words + c2.words <= u64::MAX,
        c1.chars + c2.chars <= u64::MAX,
        c1.bytes + c2.bytes <= u64::MAX,
    ensures
        counts_match(
            (Counts {
                lines: (c1.lines + c2.lines) as u64,
                words: (c1.words + c2.words) as u64,
                chars: (c1.chars + c2.chars) as u64,
                bytes: (c1.bytes + c2.bytes) as u64,
                max_line_length: if c1.max_line_length >= c2.max_line_length {
                    c1.max_line_length
                } else {
                    c2.max_line_length
                },
            }),
            a + b,
            options,
        ),
{
    decode::lemma_units_after_newline(a, b);
    lemma_newline_count_concat(a, b);
    let ua = decode::complete_units(a);
    let ub = decode::decode_units(b);
    lemma_word_starts_concat(false, ua, ub);
    lemma_line_fold_concat(0, 0, ua, ub);
    let m_a = line_fold(0, 0, ua).1;
    lemma_line_fold_longest(0, m_a, ub);
    assert(line_fold(0, 0, ua).0 == 0);
}

/// The counts of a stream are determined by its bytes: two results that both
/// match the same bytes are equal. So a `CountState` fed the same bytes in any
/// chunks (`feed` appends each chunk to `data()`) finishes with the same counts.
pub proof fn lemma_counts_determined(c1: Counts, c2: Counts, data: Seq<u8>, options: CountOptions)
    requires
        counts_match(c1, data, options),
        counts_match(c2, data, options),
    ensures
        c1 == c2,
{
}

/// Counting the UTF-8 encoding of a text finds exactly its characters: one
/// scalar unit per `char`, nothing malformed.
pub proof fn lemma_text_units(text: Seq<char>)
    ensures
        decode::decode_units(vstd::utf8::encode_utf8(text)) == text.map_values(
            |c: char| Unit::Scalar(c as u32),
        ),
        char_total(vstd::utf8::encode_utf8(text)) == text.len(),
{
    let bytes = vstd::utf8::encode_utf8(text);
    vstd::utf8::encode_utf8_valid_utf8(text);
    vstd::utf8::encode_utf8_decode_utf8(text);
    decode::lemma_valid_utf8_units(bytes);
}

/// The counts of a stream are bounded by one another: there are no more newlines
/// and no more characters than bytes, no more words than characters, and no
/// line is longer than the whole stream has characters.
pub proof fn lemma_counts_bounded(c: Counts, data: Seq<u8>, options: CountOptions)
    requires
        counts_match(c, data, options),
    ensures
        c.lines <= c.bytes,
        c.chars <= c.bytes,
        c.words <= char_total(data),
        c.max_line_length <= char_total(data),
        options.chars ==> c.words <= c.chars && c.max_line_length <= c.chars,
{
    let units = decode::decode_units(data);
    lemma_newline_count_bound(data);
    decode::lemma_units_bound(data);
    lemma_word_starts_bound(false, units);
    lemma_line_fold_bound(0, 0, units);
}

#[verifier::external_type_specification]
#[verifier::external_body]
pub struct ExIoError(std::io::Error);

/// `Read::read` into the whole of `buffer`. The number of bytes it reports, and
/// what it writes into the buffer, depend on the reader: no clause states them.
/// The buffer keeps its length.
#[verifier::external_body]
fn read_chunk<R: std::io::Read>(reader: &mut R, buffer: &mut Vec<u8>) -> (r: Result<
    usize,
    std::io::Error,
>)
    ensures
        final(buffer)@.len() == old(buffer)@.len(),
{
    reader.read(buffer.as_mut_slice())
}

/// `std::io::Error::new` with kind `InvalidData` and the given message.
#[verifier::external_body]
fn invalid_data(message: &str) -> std::io::Error {
    std::io::Error::new(std::io::ErrorKind::InvalidData, message)
}

/// The byte count of a stream would not fit in a `u64`.
#[derive(Clone, Copy, Debug, PartialEq, Eq, Structural)]
pub struct ByteCountOverflow;

/// The counts of a stream that is fed in chunks: the counts of the complete
/// units so far, and the decoding state of each count that is asked for.
pub struct CountState {
    options: CountOptions,
    counts: Counts,
    word_state: WordState,
    char_state: CharState,
    line_length_state: LineLengthState,
    data: Ghost<Seq<u8>>,
}

impl CountState {
    /// The counts that are asked for.
    pub closed spec fn options(&self) -> CountOptions {
        self.options
    }

    /// The bytes fed so far.
    pub closed spec fn data(&self) -> Seq<u8> {
        self.data@
    }

    /// The state holds the counts of the complete units of the bytes fed so far,
    /// and each decoding state follows those bytes.
    pub closed spec fn wf(&self) -> bool {
        let data = self.data@;
        let options = self.options;
        let units = decode::complete_units(data);
        &&& self.counts.bytes == data.len()
        &&& self.counts.lines == if options.lines {
            newline_count(data)
        } else {
            0
        }
        &&& self.counts.words == if options.words {
            word_starts(false, units)
        } else {
            0
        }
        &&& options.words ==> self.word_state.in_word() == in_word_after(false, units)
            && self.word_state.pending() == decode::pending_tail(data)
        &&& self.counts.chars == if options.chars {
            units.len()
        } else {
            0
        }
        &&& options.chars ==> self.char_state.pending() == decode::pending_tail(data)
        &&& self.counts.max_line_length == if options.max_line_length {
            line_fold(0, 0, units).1
        } else {
            0
        }
        &&& options.max_line_length ==> self.line_length_state.current() == line_fold(
            0,
            0,
            units,
        ).0 && self.line_length_state.pending() == decode::pending_tail(data)
    }

    /// The bytes fed so far can be counted in a `u64`.
    pub proof fn lemma_data_fits(&self)
        requires
            self.wf(),
        ensures
            self.data().len() <= u64::MAX,
    {
    }

    /// A state that has been fed nothing.
    pub fn new(options: CountOptions) -> (state: Self)
        ensures
            state.wf(),
            state.options() == options,
            state.data() == Seq::<u8>::empty(),
    {
        let state = CountState {
            options,
            counts: Counts { lines: 0, words: 0, chars: 0, bytes: 0, max_line_length: 0 },
            word_state: WordState::new(),
            char_state: CharState::new(),
            line_length_state: LineLengthState::new(),
            data: Ghost(Seq::empty()),
        };
        assert(decode::complete_units(Seq::<u8>::empty()) =~= Seq::<Unit>::empty());
        assert(decode::pending_tail(Seq::<u8>::empty()) =~= Seq::<u8>::empty());
        state
    }

    /// Feeds the next chunk of the stream. Fails, and leaves the state as it was,
    /// exactly when the byte count of the stream would no longer fit in a `u64`.
    pub fn feed(&mut self, chunk: &[u8]) -> (r: Result<(), ByteCountOverflow>)
        requires
            old(self).wf(),
        ensures
            final(self).wf(),
            final(self).options() == old(self).options(),
            r is Ok <==> old(self).data().len() + chunk@.len() <= u64::MAX,
            r is Ok ==> final(self).data() == old(self).data() + chunk@,
            r is Err ==> final(self).data() == old(self).data(),
    {
        let bytes = match self.counts.bytes.checked_add(chunk.len() as u64) {
            Some(bytes) => bytes,
            None => return Err(ByteCountOverflow),
        };
        let ghost old_data = self.data@;
        let ghost data = old_data + chunk@;
        let options = self.options;
        proof {
            decode::lemma_units_split(old_data, chunk@);
            decode::lemma_units_bound(data);
            decode::lemma_units_bound(old_data);
            lemma_newline_count_concat(old_data, chunk@);
            lemma_newline_count_bound(data);
            lemma_word_starts_bound(false, decode::complete_units(data));
            lemma_word_starts_concat(
                false,
                decode::complete_units(old_data),
                decode::complete_units(decode::pending_tail(old_data) + chunk@),
            );
            lemma_line_fold_concat(
                0,
                0,
                decode::complete_units(old_data),
                decode::complete_units(decode::pending_tail(old_data) + chunk@),
            );
            lemma_line_fold_bound(0, 0, decode::complete_units(old_data));
            lemma_line_fold_bound(0, 0, decode::complete_units(data));
        }
        self.counts.bytes = bytes;
        if options.lines {
            self.counts.lines = self.counts.lines + bytecount_newlines(chunk) as u64;
        }
        if options.words {
            self.counts.words = self.counts.words + count_words(chunk, &mut self.word_state) as u64;
        }
        if options.chars {
            self.counts.chars = self.counts.chars + count_chars(chunk, &mut self.char_state) as u64;
        }
        if options.max_line_length {
            count_max_line_length(
                chunk,
                &mut self.line_length_state,
                &mut self.counts.max_line_length,
            );
        }
        self.data = Ghost(data);
        Ok(())
    }

    /// The counts of the whole stream fed so far, a sequence that the stream's
    /// end cuts off counting as one malformed character.
    pub fn finish(&self) -> (counts: Counts)
        requires
            self.wf(),
        ensures
            counts_match(counts, self.data(), self.options()),
    {
        let options = self.options;
        let mut counts = self.counts;
        let ghost data = self.data@;
        let ghost units = decode::complete_units(data);
        proof {
            decode::lemma_units_bound(data);
            lemma_word_starts_bound(false, units);
            lemma_line_fold_bound(0, 0, units);
            assert(units.push(Unit::Malformed).drop_last() =~= units);
        }
        if options.words && self.word_state.pending_utf8.len() > 0 && !self.word_state.in_word {
            counts.words = counts.words + 1;
        }
        if options.chars && self.char_state.pending_utf8.len() > 0 {
            counts.chars = counts.chars + 1;
        }
        if options.max_line_length {
            let mut current = self.line_length_state.current_line_length;
            if self.line_length_state.pending_utf8.len() > 0 {
                current = current + 1;
            }
            if current > counts.max_line_length {
                counts.max_line_length = current;
            }
        }
        counts
    }
}

/// What to do after a read of the input.
pub enum ReadStep {
    /// Read on.
    Continue,
    /// Stop with this result.
    Stop(Result<Counts, std::io::Error>),
}

impl CountState {
    /// Takes the outcome of one read into `buffer`: a reader's error stops with
    /// that same error; a read of 0 bytes (the end of the input) stops with the
    /// counts of everything fed so far; a read that claims more bytes than the
    /// buffer holds stops with an error; otherwise the bytes read are fed, and
    /// reading goes on unless the byte count would no longer fit in a `u64`,
    /// which stops with an error. Only a fed read changes the state.
    pub fn take_read(&mut self, read: Result<usize, std::io::Error>, buffer: &[u8]) -> (step:
        ReadStep)
        requires
            old(self).wf(),
        ensures
            final(self).wf(),
            final(self).options() == old(self).options(),
            read matches Err(e) ==> step == ReadStep::Stop(Err(e)) && final(self).data() == old(
                self,
            ).data(),
            read == Ok::<usize, std::io::Error>(0usize) ==> final(self).data() == old(self).data()
                && (step matches ReadStep::Stop(Ok(c)) && counts_match(
                c,
                old(self).data(),
                old(self).options(),
            )),
            read matches Ok(n) && n > buffer@.len() ==> final(self).data() == old(self).data() && (
            step matches ReadStep::Stop(Err(_))),
            read matches Ok(n) && 0 < n <= buffer@.len() && old(self).data().len() + n <= u64::MAX
                ==> step is Continue && final(self).data() == old(self).data() + buffer@.take(
                read->Ok_0 as int,
            ),
            read matches Ok(n) && 0 < n <= buffer@.len() && old(self).data().len() + n > u64::MAX
                ==> final(self).data() == old(self).data() && (step matches ReadStep::Stop(Err(_))),
            step is Continue ==> old(self).data().len() < final(self).data().len(),
    {
        match read {
            Err(error) => ReadStep::Stop(Err(error)),
            Ok(n) => {
                if n == 0 {
                    return ReadStep::Stop(Ok(self.finish()));
                }
                if n > buffer.len() {
                    return ReadStep::Stop(
                        Err(invalid_data("the reader reported more bytes than the buffer holds")),
                    );
                }
                let chunk = slice_subrange(buffer, 0, n);
                assert(chunk@ =~= buffer@.take(n as int));
                match self.feed(chunk) {
                    Ok(()) => ReadStep::Continue,
                    Err(_) => ReadStep::Stop(
                        Err(invalid_data("the byte count does not fit in 64 bits")),
                    ),
                }
            },
        }
    }
}

/// Counts the bytes that `reader` yields until it reports the end of its input,
/// and, as `options` asks, the newlines, words, characters and the length of the
/// longest line: each read, into a buffer of 64 KiB, is taken by
/// `CountState::take_read`, which says when to stop and with what result. The
/// chunks in which the reader hands out its bytes do not matter.
pub fn count_reader<R: std::io::Read>(reader: R, options: CountOptions) -> (r: Result<
    Counts,
    std::io::Error,
>)
    ensures
        r matches Ok(c) ==> exists|data: Seq<u8>| #[trigger] counts_match(c, data, options),
{
    let mut reader = reader;
    let mut buffer: Vec<u8> = vec![0u8; BUFFER_SIZE];
    let mut state = CountState::new(options);
    loop
        invariant
            buffer@.len() == BUFFER_SIZE,
            state.wf(),
            state.options() == options,
        decreases u64::MAX - state.data().len(),
    {
        let ghost before = state.data();
        let read = read_chunk(&mut reader, &mut buffer);
        match state.take_read(read, buffer.as_slice()) {
            ReadStep::Continue => {
                assert(state.data().len() <= u64::MAX) by {
                    state.lemma_data_fits();
                }
            },
            ReadStep::Stop(result) => {
                if let Ok(c) = result {
                    assert(counts_match(c, before, options));
                }
                return result;
            },
        }
    }
}

} // verus!
