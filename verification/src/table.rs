//! Arranging the rows of the output: sorting them, and the list of input paths.

use vstd::prelude::*;
use vstd::string::StringExecFns;
use crate::config::{Config, SortBy, SortOrder};
use crate::count::Counts;
use crate::order;
use crate::order::bytes_before;
use crate::output::OutputRow;

verus! {

/// The bytes of a row's label (none when it has no label).
pub open spec fn label_bytes<'a>(row: OutputRow<'a>) -> Seq<u8> {
    match row.label {
        Some(l) => vstd::utf8::encode_utf8(l@),
        None => Seq::empty(),
    }
}

/// Whether duration `a` is shorter than `b`; an unknown duration is shorter than
/// any known one.
pub open spec fn duration_less(a: Option<crate::duration::Duration>, b: Option<crate::duration::Duration>) -> bool {
    match (a, b) {
        (None, Some(_)) => true,
        (Some(x), Some(y)) => x.total_nanos() < y.total_nanos(),
        _ => false,
    }
}

/// Whether row `a` has a smaller sort key than row `b` in column `sort_by`.
pub open spec fn key_less<'a>(sort_by: SortBy, a: OutputRow<'a>, b: OutputRow<'a>) -> bool {
    match sort_by {
        SortBy::Lines => a.counts.lines < b.counts.lines,
        SortBy::Words => a.counts.words < b.counts.words,
        SortBy::Chars => a.counts.chars < b.counts.chars,
        SortBy::MaxLine => a.counts.max_line_length < b.counts.max_line_length,
        SortBy::Bytes => a.counts.bytes < b.counts.bytes,
        SortBy::File => order::bytes_less(label_bytes(a), label_bytes(b)),
        SortBy::Duration => duration_less(a.duration, b.duration),
    }
}

/// Whether row `a` goes strictly before row `b` when sorting by `sort_by` in
/// direction `sort_order`.
pub open spec fn precedes<'a>(sort_by: SortBy, sort_order: SortOrder, a: OutputRow<'a>, b: OutputRow<'a>) -> bool {
    match sort_order {
        SortOrder::Asc => key_less(sort_by, a, b),
        SortOrder::Desc => key_less(sort_by, b, a),
    }
}

/// Whether `perm` lists each of `0..n` exactly once.
pub open spec fn is_permutation(perm: Seq<int>, n: nat) -> bool {
    &&& perm.len() == n
    &&& forall|k: int| 0 <= k < n ==> 0 <= #[trigger] perm[k] < n
    &&& forall|k: int, l: int| 0 <= k < l < n ==> #[trigger] perm[k] != #[trigger] perm[l]
}

/// Whether `after` holds the rows of `before` sorted by `sort_by` in direction
/// `sort_order`, rows with equal keys keeping their order.
pub open spec fn stably_sorted<'a>(
    sort_by: SortBy,
    sort_order: SortOrder,
    before: Seq<OutputRow<'a>>,
    after: Seq<OutputRow<'a>>,
) -> bool {
    exists|perm: Seq<int>|
        {
            &&& is_permutation(perm, before.len())
            &&& after.len() == before.len()
            &&& forall|k: int| 0 <= k < after.len() ==> after[k] == before[#[trigger] perm[k]]
            &&& forall|k: int, l: int|
                0 <= k < l < after.len() ==> !precedes(sort_by, sort_order, #[trigger] after[l], #[trigger] after[k])
            &&& forall|k: int, l: int|
                0 <= k < l < after.len() && !precedes(sort_by, sort_order, after[k], after[l])
                    ==> #[trigger] perm[k] < #[trigger] perm[l]
        }
}

/// `precedes` is a strict weak order: irreflexive, asymmetric, and rows that do
/// not go before one another are interchangeable.
pub proof fn lemma_precedes_order<'a>(
    sort_by: SortBy,
    sort_order: SortOrder,
    a: OutputRow<'a>,
    b: OutputRow<'a>,
    c: OutputRow<'a>,
)
    ensures
        !precedes(sort_by, sort_order, a, a),
        precedes(sort_by, sort_order, a, b) ==> !precedes(sort_by, sort_order, b, a),
        !precedes(sort_by, sort_order, a, b) && !precedes(sort_by, sort_order, b, c) ==> !precedes(
            sort_by,
            sort_order,
            a,
            c,
        ),
{
    let (x, y, z) = (label_bytes(a), label_bytes(b), label_bytes(c));
    order::lemma_bytes_less_total(x, y, z);
    order::lemma_bytes_less_total(y, z, x);
    order::lemma_bytes_less_total(z, x, y);
    order::lemma_bytes_less_total(x, z, y);
    order::lemma_bytes_less_total(y, x, z);
    order::lemma_bytes_less_total(z, y, x);
}


/// Sorted rows are in the order of the column they are sorted by: each count
/// column orders by the count it names (ascending, or descending for `Desc`),
/// `File` by the bytes of the labels, `Duration` by total nanoseconds with
/// unknown durations first (last for `Desc`). The rows are the same rows,
/// rearranged.
pub proof fn lemma_sorted_by_column<'a>(
    sort_by: SortBy,
    sort_order: SortOrder,
    before: Seq<OutputRow<'a>>,
    after: Seq<OutputRow<'a>>,
    k: int,
    l: int,
)
    requires
        stably_sorted(sort_by, sort_order, before, after),
        0 <= k < l < after.len(),
    ensures
        after.len() == before.len(),
        exists|i: int| 0 <= i < before.len() && before[i] == after[k],
        ({
            let (x, y) = match sort_order {
                SortOrder::Asc => (after[k], after[l]),
                SortOrder::Desc => (after[l], after[k]),
            };
            match sort_by {
                SortBy::Lines => x.counts.lines <= y.counts.lines,
                SortBy::Words => x.counts.words <= y.counts.words,
                SortBy::Chars => x.counts.chars <= y.counts.chars,
                SortBy::MaxLine => x.counts.max_line_length <= y.counts.max_line_length,
                SortBy::Bytes => x.counts.bytes <= y.counts.bytes,
                SortBy::File => !order::bytes_less(label_bytes(y), label_bytes(x)),
                SortBy::Duration => match (x.duration, y.duration) {
                    (Some(_), None) => false,
                    (Some(p), Some(q)) => p.total_nanos() <= q.total_nanos(),
                    _ => true,
                },
            }
        }),
{
    let perm = choose|perm: Seq<int>|
        {
            &&& is_permutation(perm, before.len())
            &&& after.len() == before.len()
            &&& forall|m: int| 0 <= m < after.len() ==> after[m] == before[#[trigger] perm[m]]
            &&& forall|m: int, n: int|
                0 <= m < n < after.len() ==> !precedes(sort_by, sort_order, #[trigger] after[n], #[trigger] after[m])
            &&& forall|m: int, n: int|
                0 <= m < n < after.len() && !precedes(sort_by, sort_order, after[m], after[n])
                    ==> #[trigger] perm[m] < #[trigger] perm[n]
        };
    assert(after[k] == before[perm[k]]);
    assert(!precedes(sort_by, sort_order, after[l], after[k]));
}

/// Whether row `a` goes strictly before row `b`.
fn row_precedes<'a>(sort_by: SortBy, sort_order: SortOrder, a: &OutputRow<'a>, b: &OutputRow<'a>) -> (r: bool)
    ensures
        r == precedes(sort_by, sort_order, *a, *b),
{
    let (first, second) = match sort_order {
        SortOrder::Asc => (a, b),
        SortOrder::Desc => (b, a),
    };
    match sort_by {
        SortBy::Lines => first.counts.lines < second.counts.lines,
        SortBy::Words => first.counts.words < second.counts.words,
        SortBy::Chars => first.counts.chars < second.counts.chars,
        SortBy::MaxLine => first.counts.max_line_length < second.counts.max_line_length,
        SortBy::Bytes => first.counts.bytes < second.counts.bytes,
        SortBy::File => match (first.label, second.label) {
            (Some(x), Some(y)) => bytes_before(x.as_bytes(), y.as_bytes()),
            (None, Some(y)) => y.as_bytes().len() > 0,
            _ => false,
        },
        SortBy::Duration => match (first.duration, second.duration) {
            (None, Some(_)) => true,
            (Some(x), Some(y)) => x.as_nanos() < y.as_nanos(),
            _ => false,
        },
    }
}

/// Sorts the rows by the column `config.sort_by`, in the direction
/// `config.sort_order`, keeping rows with equal keys in their order (labels
/// compare in byte order, a missing label as the empty one; unknown durations
/// come before known ones). Leaves the rows as they are when no sort column is
/// set.
pub fn sort_rows<'a>(config: &Config, rows: &mut Vec<OutputRow<'a>>)
    ensures
        config.sort_by is None ==> final(rows)@ == old(rows)@,
        config.sort_by matches Some(by) ==> stably_sorted(
            by,
            config.sort_order,
            old(rows)@,
            final(rows)@,
        ),
{
    let sort_by = match config.sort_by {
        Some(by) => by,
        None => return ,
    };
    let sort_order = config.sort_order;
    let n = rows.len();
    let ghost input = rows@;
    let mut sorted: Vec<OutputRow<'a>> = Vec::new();
    let ghost mut perm: Seq<int> = Seq::empty();
    let mut i: usize = 0;
    while i < n
        invariant
            n == input.len(),
            rows@ == input,
            i <= n,
            sorted@.len() == i,
            is_permutation(perm, i as nat),
            forall|k: int| 0 <= k < i ==> sorted@[k] == input[#[trigger] perm[k]],
            forall|k: int, l: int|
                0 <= k < l < i ==> !precedes(sort_by, sort_order, #[trigger] sorted@[l], #[trigger] sorted@[k]),
            forall|k: int, l: int|
                0 <= k < l < i && !precedes(sort_by, sort_order, sorted@[k], sorted@[l])
                    ==> #[trigger] perm[k] < #[trigger] perm[l],
        decreases n - i,
    {
        let x = rows[i];
        let mut p: usize = i;
        while p > 0 && row_precedes(sort_by, sort_order, &x, &sorted[p - 1])
            invariant
                p <= i,
                sorted@.len() == i,
                forall|q: int| p <= q < i ==> precedes(sort_by, sort_order, x, #[trigger] sorted@[q]),
            decreases p,
        {
            p = p - 1;
        }
        let ghost s = sorted@;
        proof {
            assert forall|q: int| 0 <= q < p implies !precedes(sort_by, sort_order, x, #[trigger] s[q]) by {
                lemma_precedes_order(sort_by, sort_order, x, s[p - 1], s[q]);
            }
            assert forall|q: int| p <= q < i implies !precedes(sort_by, sort_order, #[trigger] s[q], x) by {
                lemma_precedes_order(sort_by, sort_order, x, s[q], x);
            }
        }
        sorted.insert(p, x);
        proof {
            let old_perm = perm;
            perm = perm.insert(p as int, i as int);
            let t = sorted@;
            assert(t =~= s.insert(p as int, x));
            assert forall|k: int| 0 <= k < i + 1 implies t[k] == input[#[trigger] perm[k]] by {
                if k < p {
                    assert(t[k] == s[k] && perm[k] == old_perm[k]);
                } else if k > p {
                    assert(t[k] == s[k - 1] && perm[k] == old_perm[k - 1]);
                }
            }
            assert forall|k: int, l: int|
                0 <= k < l < i + 1 implies !precedes(sort_by, sort_order, #[trigger] t[l], #[trigger] t[k]) by {
                if l < p {
                    assert(t[l] == s[l] && t[k] == s[k]);
                } else if l == p {
                    assert(t[k] == s[k]);
                } else if k == p {
                    assert(t[l] == s[l - 1]);
                } else if k < p {
                    assert(t[l] == s[l - 1] && t[k] == s[k]);
                } else {
                    assert(t[l] == s[l - 1] && t[k] == s[k - 1]);
                }
            }
            assert forall|k: int, l: int|
                0 <= k < l < i + 1 && !precedes(sort_by, sort_order, t[k], t[l])
                    implies #[trigger] perm[k] < #[trigger] perm[l] by {
                if l < p {
                    assert(t[l] == s[l] && t[k] == s[k]);
                    assert(perm[k] == old_perm[k] && perm[l] == old_perm[l]);
                } else if l == p {
                    assert(perm[k] == old_perm[k]);
                } else if k == p {
                    assert(t[l] == s[l - 1]);
                } else if k < p {
                    assert(t[l] == s[l - 1] && t[k] == s[k]);
                    assert(perm[k] == old_perm[k] && perm[l] == old_perm[l - 1]);
                } else {
                    assert(t[l] == s[l - 1] && t[k] == s[k - 1]);
                    assert(perm[k] == old_perm[k - 1] && perm[l] == old_perm[l - 1]);
                }
            }
            assert forall|k: int| 0 <= k < i + 1 implies 0 <= #[trigger] perm[k] < i + 1 by {
                if k < p {
                    assert(perm[k] == old_perm[k]);
                } else if k > p {
                    assert(perm[k] == old_perm[k - 1]);
                }
            }
            assert forall|k: int, l: int| 0 <= k < l < i + 1 implies #[trigger] perm[k] != #[trigger] perm[l] by {
                if l < p {
                    assert(perm[k] == old_perm[k] && perm[l] == old_perm[l]);
                } else if l == p {
                    assert(perm[k] == old_perm[k]);
                } else if k == p {
                    assert(perm[l] == old_perm[l - 1]);
                } else if k < p {
                    assert(perm[k] == old_perm[k] && perm[l] == old_perm[l - 1]);
                } else {
                    assert(perm[k] == old_perm[k - 1] && perm[l] == old_perm[l - 1]);
                }
            }
        }
        i = i + 1;
    }
    *rows = sorted;
    assert(stably_sorted(sort_by, sort_order, input, rows@)) by {
        assert(is_permutation(perm, input.len()));
    }
}


/// The UTF-8 bytes of a text.
pub open spec fn text_bytes(s: Seq<char>) -> Seq<u8> {
    vstd::utf8::encode_utf8(s)
}

/// Whether `after` holds the texts of `before` in byte order.
pub open spec fn sorted_texts(before: Seq<Seq<char>>, after: Seq<Seq<char>>) -> bool {
    exists|perm: Seq<int>|
        {
            &&& is_permutation(perm, before.len())
            &&& after.len() == before.len()
            &&& forall|k: int| 0 <= k < after.len() ==> after[k] == before[#[trigger] perm[k]]
            &&& forall|k: int, l: int|
                0 <= k < l < after.len() ==> !order::bytes_less(
                    text_bytes(#[trigger] after[l]),
                    text_bytes(#[trigger] after[k]),
                )
        }
}

/// Whether text `a` comes strictly before text `b` in byte order.
fn text_before(a: &String, b: &String) -> (r: bool)
    ensures
        r == order::bytes_less(text_bytes(a@), text_bytes(b@)),
{
    bytes_before(a.as_str().as_bytes(), b.as_str().as_bytes())
}

/// Sorts texts in byte order.
fn sort_texts(texts: Vec<String>) -> (sorted: Vec<String>)
    ensures
        sorted_texts(texts.deep_view(), sorted.deep_view()),
{
    let ghost input = texts.deep_view();
    let n = texts.len();
    let mut remaining = texts;
    let mut sorted: Vec<String> = Vec::new();
    let ghost mut perm: Seq<int> = Seq::empty();
    let mut i: usize = 0;
    assert(input.take(n as int) =~= input);
    while i < n
        invariant
            n == input.len(),
            i <= n,
            remaining.deep_view() == input.take(n - i),
            sorted@.len() == i,
            perm.len() == i,
            forall|k: int| 0 <= k < i ==> n - i <= #[trigger] perm[k] < n,
            forall|k: int, l: int| 0 <= k < l < i ==> #[trigger] perm[k] != #[trigger] perm[l],
            forall|k: int| 0 <= k < i ==> sorted.deep_view()[k] == input[#[trigger] perm[k]],
            forall|k: int, l: int|
                0 <= k < l < i ==> !order::bytes_less(
                    text_bytes(#[trigger] sorted.deep_view()[l]),
                    text_bytes(#[trigger] sorted.deep_view()[k]),
                ),
        decreases n - i,
    {
        let ghost before_pop = remaining.deep_view();
        let ghost old_remaining = remaining@;
        let ghost j: int = n - i - 1;
        assert(before_pop.len() == n - i);
        assert(before_pop[j] == old_remaining[j]@);
        let x = remaining.pop().unwrap();
        assert(remaining.deep_view() =~= input.take(j));
        assert(x@ == input[j]);
        let ghost s = sorted.deep_view();
        let mut p: usize = i;
        loop
            invariant
                p <= i,
                sorted@.len() == i,
                s == sorted.deep_view(),
                forall|q: int| p <= q < i ==> order::bytes_less(text_bytes(x@), text_bytes(#[trigger] s[q])),
            ensures
                p <= i,
                p == 0 || !order::bytes_less(text_bytes(x@), text_bytes(s[p - 1])),
                forall|q: int| p <= q < i ==> order::bytes_less(text_bytes(x@), text_bytes(#[trigger] s[q])),
            decreases p,
        {
            if p == 0 {
                break;
            }
            assert(s[p - 1] == sorted@[p - 1]@);
            if !text_before(&x, &sorted[p - 1]) {
                break;
            }
            p = p - 1;
        }
        proof {
            assert forall|q: int| 0 <= q < p implies !order::bytes_less(text_bytes(x@), text_bytes(#[trigger] s[q])) by {
                if q < p - 1 {
                    assert(!order::bytes_less(
                        text_bytes(sorted.deep_view()[p - 1]),
                        text_bytes(sorted.deep_view()[q]),
                    ));
                }
                order::lemma_bytes_less_total(text_bytes(s[p - 1]), text_bytes(x@), text_bytes(s[q]));
            }
            assert forall|q: int| p <= q < i implies !order::bytes_less(text_bytes(#[trigger] s[q]), text_bytes(x@)) by {
                order::lemma_bytes_less_total(text_bytes(x@), text_bytes(s[q]), text_bytes(x@));
            }
        }
        let ghost xv = x@;
        sorted.insert(p, x);
        proof {
            let old_perm = perm;
            perm = perm.insert(p as int, j);
            let t = sorted.deep_view();
            assert(t =~= s.insert(p as int, xv));
            assert forall|k: int| 0 <= k < i + 1 implies t[k] == input[#[trigger] perm[k]] by {
                if k < p {
                    assert(t[k] == s[k] && perm[k] == old_perm[k]);
                } else if k > p {
                    assert(t[k] == s[k - 1] && perm[k] == old_perm[k - 1]);
                }
            }
            assert forall|k: int, l: int|
                0 <= k < l < i + 1 implies !order::bytes_less(
                    text_bytes(#[trigger] t[l]),
                    text_bytes(#[trigger] t[k]),
                ) by {
                if l < p {
                    assert(t[l] == s[l] && t[k] == s[k]);
                } else if l == p {
                    assert(t[k] == s[k]);
                } else if k == p {
                    assert(t[l] == s[l - 1]);
                } else if k < p {
                    assert(t[l] == s[l - 1] && t[k] == s[k]);
                } else {
                    assert(t[l] == s[l - 1] && t[k] == s[k - 1]);
                }
            }
            assert forall|k: int| 0 <= k < i + 1 implies n - (i + 1) <= #[trigger] perm[k] < n by {
                if k < p {
                    assert(perm[k] == old_perm[k]);
                } else if k > p {
                    assert(perm[k] == old_perm[k - 1]);
                }
            }
            assert forall|k: int, l: int| 0 <= k < l < i + 1 implies #[trigger] perm[k] != #[trigger] perm[l] by {
                if l < p {
                    assert(perm[k] == old_perm[k] && perm[l] == old_perm[l]);
                } else if l == p {
                    assert(perm[k] == old_perm[k]);
                } else if k == p {
                    assert(perm[l] == old_perm[l - 1]);
                } else if k < p {
                    assert(perm[k] == old_perm[k] && perm[l] == old_perm[l - 1]);
                } else {
                    assert(perm[k] == old_perm[k - 1] && perm[l] == old_perm[l - 1]);
                }
            }
        }
        i = i + 1;
    }
    assert(is_permutation(perm, input.len()));
    sorted
}

/// Adds the paths that a glob pattern matched, in byte order, after `paths`. A
/// pattern that matched nothing is an error, `<pattern>: no matches`, and leaves
/// `paths` as they were.
pub fn add_glob_matches(paths: &mut Vec<String>, pattern: &str, matches: Vec<String>) -> (r: Result<(), String>)
    ensures
        r is Err <==> matches@.len() == 0,
        r matches Err(message) ==> message@ == pattern@ + ": no matches"@ && final(paths)@ == old(paths)@,
        r is Ok ==> exists|added: Seq<Seq<char>>|
            #[trigger] sorted_texts(matches.deep_view(), added) && final(paths).deep_view()
                == old(paths).deep_view() + added,
{
    if matches.len() == 0 {
        let mut message = String::from_str(pattern);
        message.append(": no matches");
        return Err(message);
    }
    let mut sorted = sort_texts(matches);
    let ghost added = sorted.deep_view();
    let ghost before = paths.deep_view();
    paths.append(&mut sorted);
    assert(paths.deep_view() =~= before + added);
    Ok(())
}


/// The sum of one count over rows.
pub open spec fn sum_of<'a>(rows: Seq<OutputRow<'a>>, count: spec_fn(Counts) -> nat) -> nat
    decreases rows.len(),
{
    if rows.len() == 0 {
        0
    } else {
        sum_of(rows.drop_last(), count) + count(rows.last().counts)
    }
}

/// The longest line over rows.
pub open spec fn longest_of<'a>(rows: Seq<OutputRow<'a>>) -> nat
    decreases rows.len(),
{
    if rows.len() == 0 {
        0
    } else {
        let before = longest_of(rows.drop_last());
        let here = rows.last().counts.max_line_length as nat;
        if here > before {
            here
        } else {
            before
        }
    }
}

/// Whether `total` holds the totals of the rows: lines, words, characters and
/// bytes summed, and the longest of the longest lines.
pub open spec fn is_total<'a>(total: Counts, rows: Seq<OutputRow<'a>>) -> bool {
    &&& total.lines == sum_of(rows, |c: Counts| c.lines as nat)
    &&& total.words == sum_of(rows, |c: Counts| c.words as nat)
    &&& total.chars == sum_of(rows, |c: Counts| c.chars as nat)
    &&& total.bytes == sum_of(rows, |c: Counts| c.bytes as nat)
    &&& total.max_line_length == longest_of(rows)
}

/// Whether every sum of the rows fits in a `u64`.
pub open spec fn totals_fit<'a>(rows: Seq<OutputRow<'a>>) -> bool {
    &&& sum_of(rows, |c: Counts| c.lines as nat) <= u64::MAX
    &&& sum_of(rows, |c: Counts| c.words as nat) <= u64::MAX
    &&& sum_of(rows, |c: Counts| c.chars as nat) <= u64::MAX
    &&& sum_of(rows, |c: Counts| c.bytes as nat) <= u64::MAX
}

/// A sum over a prefix is at most the sum over all rows.
proof fn lemma_sum_prefix<'a>(rows: Seq<OutputRow<'a>>, i: int, count: spec_fn(Counts) -> nat)
    requires
        0 <= i <= rows.len(),
    ensures
        sum_of(rows.take(i), count) <= sum_of(rows, count),
    decreases rows.len(),
{
    if i < rows.len() {
        assert(rows.drop_last().take(i) =~= rows.take(i));
        lemma_sum_prefix(rows.drop_last(), i, count);
    } else {
        assert(rows.take(i) =~= rows);
    }
}

/// The totals of the rows, or `None` when a sum does not fit in a `u64`.
pub fn total_counts<'a>(rows: &[OutputRow<'a>]) -> (total: Option<Counts>)
    ensures
        total is Some <==> totals_fit(rows@),
        total matches Some(t) ==> is_total(t, rows@),
{
    let n = rows.len();
    let mut total = Counts { lines: 0, words: 0, chars: 0, bytes: 0, max_line_length: 0 };
    let mut i: usize = 0;
    assert(rows@.take(0) =~= Seq::<OutputRow<'a>>::empty());
    while i < n
        invariant
            n == rows@.len(),
            i <= n,
            is_total(total, rows@.take(i as int)),
        decreases n - i,
    {
        let row = rows[i];
        let ghost prefix = rows@.take(i as int);
        let ghost next = rows@.take(i + 1);
        assert(next.drop_last() =~= prefix);
        if !total.can_add(&row.counts) {
            proof {
                lemma_sum_prefix(rows@, i + 1, |c: Counts| c.lines as nat);
                lemma_sum_prefix(rows@, i + 1, |c: Counts| c.words as nat);
                lemma_sum_prefix(rows@, i + 1, |c: Counts| c.chars as nat);
                lemma_sum_prefix(rows@, i + 1, |c: Counts| c.bytes as nat);
            }
            return None;
        }
        total.add_assign(row.counts);
        i = i + 1;
    }
    assert(rows@.take(n as int) =~= rows@);
    Some(total)
}

/// The rows to show after counting `path_count` paths, of which `rows` were
/// counted: the rows sorted as `config` asks, followed, when more than one path
/// was given, by a row labelled `total` with their totals. `None` when a total
/// does not fit in a `u64`.
pub fn arrange_rows<'a>(config: &Config, rows: Vec<OutputRow<'a>>, path_count: usize) -> (arranged:
    Option<Vec<OutputRow<'a>>>)
    ensures
        arranged is Some <==> totals_fit(rows@),
        arranged matches Some(out) ==> {
            let sorted = out@.take(rows@.len() as int);
            &&& out@.len() == rows@.len() + if path_count > 1 {
                1int
            } else {
                0int
            }
            &&& config.sort_by is None ==> sorted == rows@
            &&& config.sort_by matches Some(by) ==> stably_sorted(by, config.sort_order, rows@, sorted)
            &&& path_count > 1 ==> {
                &&& out@.last().duration is None
                &&& out@.last().label matches Some(l) && l@ == "total"@
                &&& is_total(out@.last().counts, rows@)
            }
        },
{
    let total = match total_counts(rows.as_slice()) {
        Some(total) => total,
        None => return None,
    };
    let ghost input = rows@;
    let mut rows = rows;
    sort_rows(config, &mut rows);
    let ghost sorted = rows@;
    if path_count > 1 {
        rows.push(OutputRow { counts: total, duration: None, label: Some("total") });
    }
    assert(rows@.take(input.len() as int) =~= sorted);
    Some(rows)
}

} // verus!
