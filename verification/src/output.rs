//! Rendering counts as a table of text cells, and laying the table out in
//! left-aligned columns.

use vstd::prelude::*;
use vstd::string::{StrSliceExecFns, StringExecFns};
use crate::config::Config;
use crate::count::Counts;
use crate::duration::Duration;
use crate::text;
use crate::text::{decimal_string, push_char, push_decimal, push_spaces};

verus! {

/// The counts of one input, with how long counting took and the input's name.
#[derive(Clone, Copy, Debug, PartialEq, Eq)]
pub struct OutputRow<'a> {
    pub counts: Counts,
    pub duration: Option<Duration>,
    pub label: Option<&'a str>,
}

/// What `bytesize` shows for a byte count in short IEC units
/// (`ByteSize::b(bytes).display().iec_short()`), such as `1.0K`.
pub uninterp spec fn iec_short_text(bytes: u64) -> Seq<char>;

/// `ByteSize::b(bytes).display().iec_short().to_string()`: its text is named by
/// `iec_short_text`; below 1024 bytes it is the decimal count followed by `B`.
#[verifier::external_body]
fn iec_short(bytes: u64) -> (s: String)
    ensures
        s@ == iec_short_text(bytes),
        bytes < 1024 ==> s@ == text::decimal(bytes as nat).push('B'),
{
    bytesize::ByteSize::b(bytes).display().iec_short().to_string()
}

/// The text of a byte count: short IEC units when human-readable, the decimal
/// count otherwise.
pub open spec fn byte_count_text(bytes: u64, human_readable: bool) -> Seq<char> {
    if human_readable {
        iec_short_text(bytes)
    } else {
        text::decimal(bytes as nat)
    }
}

/// Formats a byte count, in short IEC units when `human_readable`.
pub fn format_byte_count(bytes: u64, human_readable: bool) -> (s: String)
    ensures
        s@ == byte_count_text(bytes, human_readable),
{
    if human_readable {
        iec_short(bytes)
    } else {
        decimal_string(bytes as u128)
    }
}

/// `nanos / divisor` rounded to tenths, followed by `unit`.
pub open spec fn tenths_text(nanos: nat, divisor: nat, unit: Seq<char>) -> Seq<char> {
    let tenths = (nanos * 10 + divisor / 2) / divisor;
    text::decimal(tenths / 10) + seq!['.'] + text::decimal(tenths % 10) + unit
}

/// Formats `nanos / divisor`, rounded half up to tenths, followed by `unit`.
fn format_tenths(nanos: u128, divisor: u128, unit: &str) -> (s: String)
    requires
        divisor > 0,
        nanos * 10 + divisor / 2 <= u128::MAX,
    ensures
        s@ == tenths_text(nanos as nat, divisor as nat, unit@),
{
    let tenths = (nanos * 10 + divisor / 2) / divisor;
    let whole = tenths / 10;
    let fraction = tenths % 10;
    let mut s = decimal_string(whole);
    push_char(&mut s, '.');
    push_decimal(&mut s, fraction);
    s.append(unit);
    s
}

/// A number below 1000 written with three digits.
pub open spec fn three_digits(n: nat) -> Seq<char> {
    if n < 10 {
        seq!['0', '0'] + text::decimal(n)
    } else if n < 100 {
        seq!['0'] + text::decimal(n)
    } else {
        text::decimal(n)
    }
}

/// The text of a duration: whole nanoseconds below a microsecond, tenths of
/// microseconds below a millisecond, tenths of milliseconds below a second, and
/// seconds with three decimals of milliseconds from a second on.
pub open spec fn duration_text(d: Duration) -> Seq<char> {
    let nanos = d.total_nanos();
    if nanos < 1_000 {
        text::decimal(nanos) + seq!['n', 's']
    } else if nanos < 1_000_000 {
        tenths_text(nanos, 1_000, seq!['u', 's'])
    } else if nanos < 1_000_000_000 {
        tenths_text(nanos, 1_000_000, seq!['m', 's'])
    } else {
        text::decimal(d.whole_secs() as nat) + seq!['.'] + three_digits(
            d.frac_nanos() as nat / 1_000_000,
        ) + seq!['s']
    }
}

/// From one second on, a duration reads as its whole seconds, a point, its
/// milliseconds in exactly three digits (zero-padded), and `s`.
pub proof fn lemma_seconds_text(d: Duration)
    requires
        d.total_nanos() >= 1_000_000_000,
        d.frac_nanos() < 1_000_000_000,
    ensures
        ({
            let m = d.frac_nanos() as nat / 1_000_000;
            duration_text(d) == text::decimal(d.whole_secs() as nat) + seq![
                '.',
                text::digit(m / 100),
                text::digit((m / 10) % 10),
                text::digit(m % 10),
                's',
            ]
        }),
{
    let m = d.frac_nanos() as nat / 1_000_000;
    text::lemma_small_decimal(m);
    assert(m < 1000);
    if m < 10 {
        assert(m / 100 == 0 && (m / 10) % 10 == 0);
    } else if m < 100 {
        assert(m / 100 == 0 && (m / 10) % 10 == m / 10);
    }
    assert(duration_text(d) =~= text::decimal(d.whole_secs() as nat) + seq![
        '.',
        text::digit(m / 100),
        text::digit((m / 10) % 10),
        text::digit(m % 10),
        's',
    ]);
}

/// Formats a duration for the duration column.
pub fn format_duration(duration: Duration) -> (s: String)
    ensures
        s@ == duration_text(duration),
{
    let nanos = duration.as_nanos();
    if nanos < 1_000 {
        let mut s = decimal_string(nanos);
        push_char(&mut s, 'n');
        push_char(&mut s, 's');
        assert(s@ =~= text::decimal(nanos as nat) + seq!['n', 's']);
        s
    } else if nanos < 1_000_000 {
        let s = format_tenths(nanos, 1_000, "us");
        proof {
            reveal_strlit("us");
        }
        assert(s@ =~= tenths_text(nanos as nat, 1_000, seq!['u', 's']));
        s
    } else if nanos < 1_000_000_000 {
        let s = format_tenths(nanos, 1_000_000, "ms");
        proof {
            reveal_strlit("ms");
        }
        assert(s@ =~= tenths_text(nanos as nat, 1_000_000, seq!['m', 's']));
        s
    } else {
        let seconds = duration.as_secs();
        let millis = duration.subsec_nanos() / 1_000_000;
        let mut s = decimal_string(seconds as u128);
        push_char(&mut s, '.');
        if millis < 10 {
            push_char(&mut s, '0');
            push_char(&mut s, '0');
        } else if millis < 100 {
            push_char(&mut s, '0');
        }
        push_decimal(&mut s, millis as u128);
        push_char(&mut s, 's');
        assert(s@ =~= text::decimal(seconds as nat) + seq!['.'] + three_digits(
            millis as nat,
        ) + seq!['s']);
        s
    }
}


/// A cell when its column is shown, nothing otherwise.
pub open spec fn cell(shown: bool, text: Seq<char>) -> Seq<Seq<char>> {
    if shown {
        seq![text]
    } else {
        Seq::empty()
    }
}

/// The heading of the byte column.
pub open spec fn byte_heading_text(human_readable: bool) -> Seq<char> {
    if human_readable {
        "size"@
    } else {
        "bytes"@
    }
}

/// The heading row: a heading for each shown count, then `file` when some row has
/// a label, then `duration` when durations are shown.
pub open spec fn heading_cells(config: Config, has_labels: bool) -> Seq<Seq<char>> {
    cell(config.show_lines, "lines"@) + cell(config.show_words, "words"@) + cell(
        config.show_chars,
        "chars"@,
    ) + cell(config.show_max_line_length, "max-line"@) + cell(
        config.show_bytes,
        byte_heading_text(config.human_readable),
    ) + cell(has_labels, "file"@) + cell(config.self_profile, "duration"@)
}

/// The cells of one row: each shown count, the label when the row has one, and
/// the duration (empty when unknown) when durations are shown.
pub open spec fn field_cells<'a>(config: Config, row: OutputRow<'a>) -> Seq<Seq<char>> {
    cell(config.show_lines, text::decimal(row.counts.lines as nat)) + cell(
        config.show_words,
        text::decimal(row.counts.words as nat),
    ) + cell(config.show_chars, text::decimal(row.counts.chars as nat)) + cell(
        config.show_max_line_length,
        text::decimal(row.counts.max_line_length as nat),
    ) + cell(config.show_bytes, byte_count_text(row.counts.bytes, config.human_readable)) + cell(
        row.label is Some,
        row.label.unwrap()@,
    ) + cell(
        config.self_profile,
        match row.duration {
            Some(d) => duration_text(d),
            None => Seq::empty(),
        },
    )
}

/// Whether some row has a label.
pub open spec fn has_labels<'a>(rows: Seq<OutputRow<'a>>) -> bool {
    exists|i: int| 0 <= i < rows.len() && (#[trigger] rows[i]).label is Some
}

/// The table: the heading row when headings are shown, then the cells of each row.
pub open spec fn table_cells<'a>(config: Config, rows: Seq<OutputRow<'a>>) -> Seq<
    Seq<Seq<char>>,
> {
    (if config.show_headings {
        seq![heading_cells(config, has_labels(rows))]
    } else {
        Seq::empty()
    }) + Seq::new(rows.len(), |i: int| field_cells(config, rows[i]))
}

/// The cells of a row line up with the headings: a row has as many cells as the
/// heading row that shows a `file` column exactly when the row has a label.
pub proof fn lemma_cells_align<'a>(config: Config, row: OutputRow<'a>)
    ensures
        field_cells(config, row).len() == heading_cells(config, row.label is Some).len(),
{
}

/// Each cell of a row sits under the heading that names it: under `lines`,
/// `words`, `chars` and `max-line` stand the decimal counts of lines, words,
/// characters and the longest line; under `bytes` the decimal byte count, under
/// `size` its short IEC text; under `file` the row's label; under `duration`
/// the row's duration, or nothing when it is unknown.
#[verifier::rlimit(50)]
pub proof fn lemma_cells_under_headings<'a>(config: Config, row: OutputRow<'a>, j: int)
    requires
        0 <= j < heading_cells(config, row.label is Some).len(),
    ensures
        ({
            let h = heading_cells(config, row.label is Some)[j];
            let f = field_cells(config, row)[j];
            &&& h == "lines"@ ==> f == text::decimal(row.counts.lines as nat)
            &&& h == "words"@ ==> f == text::decimal(row.counts.words as nat)
            &&& h == "chars"@ ==> f == text::decimal(row.counts.chars as nat)
            &&& h == "max-line"@ ==> f == text::decimal(row.counts.max_line_length as nat)
            &&& h == "bytes"@ ==> f == text::decimal(row.counts.bytes as nat)
            &&& h == "size"@ ==> f == iec_short_text(row.counts.bytes)
            &&& h == "file"@ ==> row.label is Some && f == row.label.unwrap()@
            &&& h == "duration"@ ==> f == match row.duration {
                Some(d) => duration_text(d),
                None => Seq::empty(),
            }
        }),
{
    reveal_strlit("lines");
    reveal_strlit("words");
    reveal_strlit("chars");
    reveal_strlit("max-line");
    reveal_strlit("bytes");
    reveal_strlit("size");
    reveal_strlit("file");
    reveal_strlit("duration");
    let c = config;
    let labelled = row.label is Some;
    let hs = seq![
        (c.show_lines, "lines"@, text::decimal(row.counts.lines as nat)),
        (c.show_words, "words"@, text::decimal(row.counts.words as nat)),
        (c.show_chars, "chars"@, text::decimal(row.counts.chars as nat)),
        (c.show_max_line_length, "max-line"@, text::decimal(row.counts.max_line_length as nat)),
        (
            c.show_bytes,
            byte_heading_text(c.human_readable),
            byte_count_text(row.counts.bytes, c.human_readable),
        ),
        (labelled, "file"@, row.label.unwrap()@),
        (
            c.self_profile,
            "duration"@,
            match row.duration {
                Some(d) => duration_text(d),
                None => Seq::empty(),
            },
        ),
    ];
    lemma_shown_columns(hs, 7);
    reveal_with_fuel(shown_headings, 8);
    reveal_with_fuel(shown_fields, 8);
    assert(heading_cells(config, labelled) =~= shown_headings(hs, 7));
    assert(field_cells(config, row) =~= shown_fields(hs, 7));
    lemma_shown_pairs(hs, 7, j);
    let i = choose|i: int|
        0 <= i < 7 && hs[i].0 && #[trigger] hs[i].1 == shown_headings(hs, 7)[j] && hs[i].2
            == shown_fields(hs, 7)[j];
    let h = shown_headings(hs, 7)[j];
    assert("lines"@[0] == 'l' && "words"@[0] == 'w' && "chars"@[0] == 'c');
    assert("max-line"@[0] == 'm' && "bytes"@[0] == 'b' && "size"@[0] == 's');
    assert("file"@[0] == 'f' && "duration"@[0] == 'd');
    assert(h.len() > 0 && hs[i].1 == h);
}

/// The headings of the first `k` columns that are shown.
pub open spec fn shown_headings(cols: Seq<(bool, Seq<char>, Seq<char>)>, k: nat) -> Seq<Seq<char>>
    decreases k,
{
    if k == 0 {
        Seq::empty()
    } else {
        shown_headings(cols, (k - 1) as nat) + cell(cols[k - 1].0, cols[k - 1].1)
    }
}

/// The fields of the first `k` columns that are shown.
pub open spec fn shown_fields(cols: Seq<(bool, Seq<char>, Seq<char>)>, k: nat) -> Seq<Seq<char>>
    decreases k,
{
    if k == 0 {
        Seq::empty()
    } else {
        shown_fields(cols, (k - 1) as nat) + cell(cols[k - 1].0, cols[k - 1].2)
    }
}

proof fn lemma_shown_columns(cols: Seq<(bool, Seq<char>, Seq<char>)>, k: nat)
    ensures
        shown_headings(cols, k).len() == shown_fields(cols, k).len(),
    decreases k,
{
    if k > 0 {
        lemma_shown_columns(cols, (k - 1) as nat);
    }
}

/// Heading `j` and field `j` of the shown columns come from the same column.
proof fn lemma_shown_pairs(cols: Seq<(bool, Seq<char>, Seq<char>)>, k: nat, j: int)
    requires
        k <= cols.len(),
        0 <= j < shown_headings(cols, k).len(),
    ensures
        exists|i: int|
            0 <= i < k && cols[i].0 && #[trigger] cols[i].1 == shown_headings(cols, k)[j]
                && cols[i].2 == shown_fields(cols, k)[j],
    decreases k,
{
    lemma_shown_columns(cols, k);
    lemma_shown_columns(cols, (k - 1) as nat);
    let before = shown_headings(cols, (k - 1) as nat);
    if j < before.len() {
        lemma_shown_pairs(cols, (k - 1) as nat, j);
    } else {
        assert(cols[k - 1].1 == shown_headings(cols, k)[j]);
    }
}

/// Appends a cell to a row when its column is shown.
fn push_cell(cells: &mut Vec<String>, shown: bool, text: String)
    ensures
        final(cells).deep_view() == old(cells).deep_view() + cell(shown, text@),
{
    let ghost before = cells.deep_view();
    if shown {
        cells.push(text);
        assert(cells.deep_view() =~= before + cell(shown, text@));
    } else {
        assert(cells.deep_view() =~= before + cell(shown, text@));
    }
}

/// The heading of the byte column.
fn byte_heading(config: &Config) -> (heading: &'static str)
    ensures
        heading@ == byte_heading_text(config.human_readable),
{
    if config.human_readable {
        "size"
    } else {
        "bytes"
    }
}

/// The heading row.
fn headings(config: &Config, has_labels: bool) -> (fields: Vec<String>)
    ensures
        fields.deep_view() == heading_cells(*config, has_labels),
{
    let mut fields: Vec<String> = Vec::new();
    assert(fields.deep_view() =~= Seq::<Seq<char>>::empty());
    push_cell(&mut fields, config.show_lines, String::from_str("lines"));
    push_cell(&mut fields, config.show_words, String::from_str("words"));
    push_cell(&mut fields, config.show_chars, String::from_str("chars"));
    push_cell(&mut fields, config.show_max_line_length, String::from_str("max-line"));
    push_cell(&mut fields, config.show_bytes, String::from_str(byte_heading(config)));
    push_cell(&mut fields, has_labels, String::from_str("file"));
    push_cell(&mut fields, config.self_profile, String::from_str("duration"));
    assert(fields.deep_view() =~= heading_cells(*config, has_labels));
    fields
}

/// The cells of one row.
fn fields<'a>(config: &Config, row: OutputRow<'a>) -> (fields: Vec<String>)
    ensures
        fields.deep_view() == field_cells(*config, row),
{
    let mut fields: Vec<String> = Vec::new();
    let ghost start = fields.deep_view();
    assert(start =~= Seq::<Seq<char>>::empty());
    if config.show_lines {
        push_cell(&mut fields, true, decimal_string(row.counts.lines as u128));
    }
    let ghost v1 = fields.deep_view();
    assert(v1 =~= start + cell(config.show_lines, text::decimal(row.counts.lines as nat)));
    if config.show_words {
        push_cell(&mut fields, true, decimal_string(row.counts.words as u128));
    }
    let ghost v2 = fields.deep_view();
    assert(v2 =~= v1 + cell(config.show_words, text::decimal(row.counts.words as nat)));
    if config.show_chars {
        push_cell(&mut fields, true, decimal_string(row.counts.chars as u128));
    }
    let ghost v3 = fields.deep_view();
    assert(v3 =~= v2 + cell(config.show_chars, text::decimal(row.counts.chars as nat)));
    if config.show_max_line_length {
        push_cell(&mut fields, true, decimal_string(row.counts.max_line_length as u128));
    }
    let ghost v4 = fields.deep_view();
    assert(v4 =~= v3 + cell(
        config.show_max_line_length,
        text::decimal(row.counts.max_line_length as nat),
    ));
    if config.show_bytes {
        push_cell(&mut fields, true, format_byte_count(row.counts.bytes, config.human_readable));
    }
    let ghost v5 = fields.deep_view();
    assert(v5 =~= v4 + cell(
        config.show_bytes,
        byte_count_text(row.counts.bytes, config.human_readable),
    ));
    match row.label {
        Some(label) => push_cell(&mut fields, true, String::from_str(label)),
        None => {},
    }
    let ghost v6 = fields.deep_view();
    assert(v6 =~= v5 + cell(row.label is Some, row.label.unwrap()@));
    if config.self_profile {
        let duration = match row.duration {
            Some(d) => format_duration(d),
            None => String::new(),
        };
        push_cell(&mut fields, true, duration);
    }
    let ghost v7 = fields.deep_view();
    assert(v7 =~= v6 + cell(
        config.self_profile,
        match row.duration {
            Some(d) => duration_text(d),
            None => Seq::empty(),
        },
    ));
    assert(fields.deep_view() =~= field_cells(*config, row));
    fields
}

/// Renders the rows as a table of text cells: a heading row first when
/// `config.show_headings`, then one row of cells per input row. The headings
/// include `file` when any row has a label.
pub fn render_rows<'a>(config: &Config, rows: Vec<OutputRow<'a>>) -> (rendered: Vec<Vec<String>>)
    ensures
        rendered.deep_view() == table_cells(*config, rows@),
{
    let n = rows.len();
    let mut any_label = false;
    let mut i: usize = 0;
    while i < n
        invariant
            n == rows@.len(),
            i <= n,
            any_label == exists|j: int| 0 <= j < i && (#[trigger] rows@[j]).label is Some,
        decreases n - i,
    {
        if rows[i].label.is_some() {
            any_label = true;
        }
        i = i + 1;
    }
    let mut rendered: Vec<Vec<String>> = Vec::new();
    if config.show_headings {
        rendered.push(headings(config, any_label));
    }
    let ghost head = rendered.deep_view();
    assert(head =~= (if config.show_headings {
        seq![heading_cells(*config, has_labels(rows@))]
    } else {
        Seq::empty()
    }));
    let mut k: usize = 0;
    while k < n
        invariant
            n == rows@.len(),
            k <= n,
            rendered.deep_view() =~= head + Seq::new(
                k as nat,
                |j: int| field_cells(*config, rows@[j]),
            ),
        decreases n - k,
    {
        let row_fields = fields(config, rows[k]);
        let ghost before = rendered.deep_view();
        rendered.push(row_fields);
        assert(rendered.deep_view() =~= before.push(field_cells(*config, rows@[k as int])));
        k = k + 1;
    }
    rendered
}


/// The number of bytes of the UTF-8 encoding of a text.
pub open spec fn byte_len(s: Seq<char>) -> usize {
    vstd::utf8::encode_utf8(s).len() as usize
}

/// The larger of two numbers.
pub open spec fn larger(a: nat, b: nat) -> nat {
    if a >= b {
        a
    } else {
        b
    }
}

/// The number of columns of a table: the length of its longest row.
pub open spec fn column_count(rows: Seq<Seq<Seq<char>>>) -> nat
    decreases rows.len(),
{
    if rows.len() == 0 {
        0
    } else {
        larger(column_count(rows.drop_last()), rows.last().len())
    }
}

/// The width of column `j`: the most bytes of a cell in that column.
pub open spec fn column_width(rows: Seq<Seq<Seq<char>>>, j: int) -> nat
    decreases rows.len(),
{
    if rows.len() == 0 {
        0
    } else {
        larger(
            column_width(rows.drop_last(), j),
            if 0 <= j < rows.last().len() {
                byte_len(rows.last()[j]) as nat
            } else {
                0
            },
        )
    }
}

/// The number of bytes of a string.
fn byte_length(s: &String) -> (n: usize)
    ensures
        n == byte_len(s@),
{
    s.as_str().len()
}

/// The width of each column of a table: the most bytes of a cell in it. There are
/// as many widths as cells in the longest row.
pub fn column_widths(rows: &[Vec<String>]) -> (widths: Vec<usize>)
    ensures
        widths@.len() == column_count(rows.deep_view()),
        forall|j: int| 0 <= j < widths@.len() ==> widths@[j] == column_width(rows.deep_view(), j),
{
    let n = rows.len();
    let ghost table = rows.deep_view();
    let mut columns: usize = 0;
    let mut i: usize = 0;
    while i < n
        invariant
            n == rows@.len(),
            table == rows.deep_view(),
            i <= n,
            columns == column_count(table.take(i as int)),
        decreases n - i,
    {
        assert(table.take(i + 1).drop_last() =~= table.take(i as int));
        assert(table[i as int] == rows@[i as int].deep_view());
        if rows[i].len() > columns {
            columns = rows[i].len();
        }
        i = i + 1;
    }
    assert(table.take(n as int) =~= table);
    let mut widths: Vec<usize> = vec![0usize; columns];
    let mut i: usize = 0;
    assert forall|j: int| 0 <= j < widths@.len() implies widths@[j] == column_width(
        table.take(0),
        j,
    ) by {
        assert(widths@[j] == 0usize);
    }
    while i < n
        invariant
            n == rows@.len(),
            table == rows.deep_view(),
            i <= n,
            widths@.len() == columns,
            columns == column_count(table),
            forall|j: int| 0 <= j < widths@.len() ==> widths@[j] == column_width(table.take(i as int), j),
        decreases n - i,
    {
        let row = &rows[i];
        let m = row.len();
        assert(table[i as int] == row.deep_view());
        assert(table.take(i + 1).drop_last() =~= table.take(i as int));
        proof {
            lemma_row_fits(table, i as int);
        }
        let mut k: usize = 0;
        while k < m
            invariant
                n == rows@.len(),
                table == rows.deep_view(),
                i < n,
                m == row@.len(),
                m <= widths@.len(),
                row.deep_view() == table[i as int],
                table.take(i + 1).drop_last() == table.take(i as int),
                table.take(i + 1).last() == table[i as int],
                widths@.len() == columns,
                k <= m,
                forall|j: int| 0 <= j < widths@.len() ==> widths@[j] == if j < k {
                    column_width(table.take(i + 1), j)
                } else {
                    column_width(table.take(i as int), j)
                },
            decreases m - k,
        {
            let len = byte_length(&row[k]);
            assert(row.deep_view()[k as int] == row@[k as int]@);
            if len > widths[k] {
                widths.set(k, len);
            }
            k = k + 1;
        }
        i = i + 1;
    }
    assert(table.take(n as int) =~= table);
    widths
}

/// Every cell fits its column: no row has more cells than the table has
/// columns, and no cell has more bytes than the width of its column.
pub proof fn lemma_cells_fit(table: Seq<Seq<Seq<char>>>, i: int, j: int)
    requires
        0 <= i < table.len(),
        0 <= j < table[i].len(),
    ensures
        j < column_count(table),
        byte_len(table[i][j]) <= column_width(table, j),
    decreases table.len(),
{
    lemma_row_fits(table, i);
    if i < table.len() - 1 {
        lemma_cells_fit(table.drop_last(), i, j);
    }
}

/// No row is longer than the table has columns.
proof fn lemma_row_fits(table: Seq<Seq<Seq<char>>>, i: int)
    requires
        0 <= i < table.len(),
    ensures
        table[i].len() <= column_count(table),
    decreases table.len(),
{
    if i < table.len() - 1 {
        lemma_row_fits(table.drop_last(), i);
    }
}


/// A cell padded on the right with spaces to `width` characters.
pub open spec fn padded(s: Seq<char>, width: nat) -> Seq<char> {
    if s.len() < width {
        s + text::spaces((width - s.len()) as nat)
    } else {
        s
    }
}

/// The first `k` cells of a row laid out in columns: cells separated by two
/// spaces, each padded to the width of its column except the row's last cell.
pub open spec fn line_prefix(row: Seq<Seq<char>>, widths: Seq<usize>, k: nat) -> Seq<char>
    decreases k,
{
    if k == 0 {
        Seq::empty()
    } else {
        let i = (k - 1) as nat;
        line_prefix(row, widths, i) + (if i > 0 {
            seq![' ', ' ']
        } else {
            Seq::empty()
        }) + (if i + 1 == row.len() {
            row[i as int]
        } else {
            padded(row[i as int], widths[i as int] as nat)
        })
    }
}

/// A row laid out in columns of the given widths (as many cells as there are
/// both cells and widths).
pub open spec fn row_line(row: Seq<Seq<char>>, widths: Seq<usize>) -> Seq<char> {
    line_prefix(
        row,
        widths,
        if row.len() <= widths.len() {
            row.len()
        } else {
            widths.len()
        },
    )
}

/// Lays a row out in columns of the given widths: cells are separated by two
/// spaces and left-aligned, padded with spaces to the width of their column,
/// except the last cell of the row, which is not padded.
pub fn format_row(row: &[String], widths: &[usize]) -> (line: String)
    ensures
        line@ == row_line(row.deep_view(), widths@),
{
    let n = if row.len() <= widths.len() {
        row.len()
    } else {
        widths.len()
    };
    let ghost cells = row.deep_view();
    let mut line = String::new();
    let mut index: usize = 0;
    while index < n
        invariant
            n <= row@.len(),
            n <= widths@.len(),
            cells == row.deep_view(),
            index <= n,
            line@ == line_prefix(cells, widths@, index as nat),
        decreases n - index,
    {
        let ghost before = line@;
        if index > 0 {
            push_char(&mut line, ' ');
            push_char(&mut line, ' ');
        }
        let field = &row[index];
        assert(cells[index as int] == field@);
        line.append(field.as_str());
        if index + 1 != row.len() {
            let chars = field.as_str().unicode_len();
            if chars < widths[index] {
                push_spaces(&mut line, widths[index] - chars);
            }
        }
        assert(line@ =~= before + (if index > 0 {
            seq![' ', ' ']
        } else {
            Seq::empty()
        }) + (if index + 1 == cells.len() {
            cells[index as int]
        } else {
            padded(cells[index as int], widths@[index as int] as nat)
        }));
        index = index + 1;
    }
    line
}


/// The position at which cell `j` of a laid-out row begins: each column before it
/// takes its width and two spaces.
pub open spec fn column_start(widths: Seq<usize>, j: nat) -> nat
    decreases j,
{
    if j == 0 {
        0
    } else {
        column_start(widths, (j - 1) as nat) + widths[j - 1] as nat + 2
    }
}

/// A text has no more characters than its UTF-8 encoding has bytes.
pub proof fn lemma_chars_within_bytes(s: Seq<char>)
    ensures
        s.len() <= vstd::utf8::encode_utf8(s).len(),
    decreases s.len(),
{
    if s.len() > 0 {
        lemma_chars_within_bytes(s.drop_first());
    }
}

/// Laid-out rows are aligned: in every row whose cells fit their columns, cell `j`
/// begins at the same position, `column_start(widths, j)`.
pub proof fn lemma_cell_starts(row: Seq<Seq<char>>, widths: Seq<usize>, j: nat)
    requires
        j < row.len(),
        j <= widths.len(),
        forall|i: int| 0 <= i < j ==> (#[trigger] row[i]).len() <= widths[i],
    ensures
        (line_prefix(row, widths, j) + if j > 0 {
            seq![' ', ' ']
        } else {
            Seq::empty()
        }).len() == column_start(widths, j),
    decreases j,
{
    if j > 0 {
        lemma_cell_starts(row, widths, (j - 1) as nat);
        assert(padded(row[j - 1], widths[j - 1] as nat).len() == widths[j - 1]);
    }
}


/// The widths that `column_widths` computes for a table.
pub open spec fn table_widths(table: Seq<Seq<Seq<char>>>) -> Seq<usize> {
    Seq::new(column_count(table), |j: int| column_width(table, j) as usize)
}

/// A table laid out with its own column widths is aligned: in every row, cell `j`
/// begins at `column_start` of those widths (cells shorter than a `usize` can
/// count, as every `String` is).
pub proof fn lemma_table_aligned(table: Seq<Seq<Seq<char>>>, i: int, j: nat)
    requires
        0 <= i < table.len(),
        j < table[i].len(),
        forall|r: int, c: int|
            0 <= r < table.len() && 0 <= c < table[r].len() ==> vstd::utf8::encode_utf8(
                #[trigger] table[r][c],
            ).len() <= usize::MAX,
    ensures
        ({
            let widths = table_widths(table);
            (line_prefix(table[i], widths, j) + if j > 0 {
                seq![' ', ' ']
            } else {
                Seq::empty()
            }).len() == column_start(widths, j)
        }),
{
    let widths = table_widths(table);
    lemma_cells_fit(table, i, j as int);
    assert forall|k: int| 0 <= k < j implies (#[trigger] table[i][k]).len() <= widths[k] by {
        lemma_cells_fit(table, i, k);
        lemma_chars_within_bytes(table[i][k]);
        lemma_column_width_fits(table, k);
    }
    lemma_cell_starts(table[i], widths, j);
}

/// A column is no wider than its widest cell can count.
proof fn lemma_column_width_fits(table: Seq<Seq<Seq<char>>>, j: int)
    ensures
        column_width(table, j) <= usize::MAX,
    decreases table.len(),
{
    if table.len() > 0 {
        lemma_column_width_fits(table.drop_last(), j);
    }
}

} // verus!
