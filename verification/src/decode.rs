//! Lossy UTF-8 decoding of byte streams into units.
//!
//! A stream is read from the front as a sequence of units: a well-formed UTF-8
//! sequence (Unicode Standard, Table 3-7) is one scalar unit, and each maximal
//! ill-formed subpart stands for one malformed unit (one U+FFFD replacement
//! character in lossy decoding). A well-formed prefix cut off by the end of the
//! available bytes is "truncated": it is held back until more bytes arrive, and
//! counts as one malformed unit if the stream ends there.

use vstd::prelude::*;
use vstd::utf8::*;

verus! {

/// One unit of a decoded byte stream.
pub enum Unit {
    /// A Unicode scalar value.
    Scalar(u32),
    /// An ill-formed byte sequence, decoded as one replacement character.
    Malformed,
}

/// What the bytes at some position of a buffer begin with.
#[derive(Clone, Copy, Debug)]
pub enum Scan {
    /// A well-formed sequence of `len` bytes encoding `value`.
    Scalar { value: u32, len: usize },
    /// A maximal ill-formed subpart of `len` bytes.
    Malformed { len: usize },
    /// A well-formed prefix that the end of the buffer cuts off.
    Truncated,
}

pub open spec fn is_continuation(b: u8) -> bool {
    0x80 <= b <= 0xbf
}

/// The length of the well-formed sequence that a leading byte begins, or 0 when
/// no well-formed sequence begins with it.
pub open spec fn sequence_width(b: u8) -> nat {
    if b <= 0x7f {
        1
    } else if 0xc2 <= b <= 0xdf {
        2
    } else if 0xe0 <= b <= 0xef {
        3
    } else if 0xf0 <= b <= 0xf4 {
        4
    } else {
        0
    }
}

/// Whether `second` may follow the leading byte `first` in a well-formed sequence.
pub open spec fn second_byte_fits(first: u8, second: u8) -> bool {
    if first == 0xe0 {
        0xa0 <= second <= 0xbf
    } else if first == 0xed {
        0x80 <= second <= 0x9f
    } else if first == 0xf0 {
        0x90 <= second <= 0xbf
    } else if first == 0xf4 {
        0x80 <= second <= 0x8f
    } else {
        is_continuation(second)
    }
}

/// How many bytes from the start of `bytes` (whose first byte leads a sequence of
/// two or more bytes) follow the pattern of a well-formed sequence.
pub open spec fn matched_len(bytes: Seq<u8>) -> nat {
    let w = sequence_width(bytes[0]);
    if bytes.len() < 2 || !second_byte_fits(bytes[0], bytes[1]) {
        1
    } else if w == 2 || bytes.len() < 3 || !is_continuation(bytes[2]) {
        2
    } else if w == 3 || bytes.len() < 4 || !is_continuation(bytes[3]) {
        3
    } else {
        4
    }
}

/// The scalar value that a well-formed sequence of `w` bytes encodes.
pub open spec fn scalar_value(bytes: Seq<u8>, w: nat) -> u32 {
    if w == 2 {
        codepoint_width_2(bytes[0], bytes[1])
    } else if w == 3 {
        codepoint_width_3(bytes[0], bytes[1], bytes[2])
    } else {
        codepoint_width_4(bytes[0], bytes[1], bytes[2], bytes[3])
    }
}

/// What a non-empty byte sequence begins with.
pub open spec fn scan_spec(bytes: Seq<u8>) -> Scan
    recommends
        bytes.len() > 0,
{
    let w = sequence_width(bytes[0]);
    if w == 0 {
        Scan::Malformed { len: 1 }
    } else if w == 1 {
        Scan::Scalar { value: bytes[0] as u32, len: 1 }
    } else if matched_len(bytes) == w {
        Scan::Scalar { value: scalar_value(bytes, w), len: w as usize }
    } else if matched_len(bytes) == bytes.len() {
        Scan::Truncated
    } else {
        Scan::Malformed { len: matched_len(bytes) as usize }
    }
}

/// The number of bytes that a scan consumes (0 for a truncated prefix).
pub open spec fn scan_len(s: Scan) -> nat {
    match s {
        Scan::Scalar { len, .. } => len as nat,
        Scan::Malformed { len } => len as nat,
        Scan::Truncated => 0,
    }
}

/// The unit that a complete scan stands for.
pub open spec fn unit_of(s: Scan) -> Unit {
    match s {
        Scan::Scalar { value, .. } => Unit::Scalar(value),
        _ => Unit::Malformed,
    }
}

/// A scan that is not truncated consumes between 1 and 4 bytes of the input.
pub proof fn lemma_scan_len(bytes: Seq<u8>)
    requires
        bytes.len() > 0,
    ensures
        scan_spec(bytes) is Truncated <==> scan_len(scan_spec(bytes)) == 0,
        !(scan_spec(bytes) is Truncated) ==> 1 <= scan_len(scan_spec(bytes)) <= bytes.len(),
        scan_len(scan_spec(bytes)) <= 4,
        scan_spec(bytes) is Truncated ==> 1 <= bytes.len() <= 3,
{
}

/// The units of the complete sequences and ill-formed subparts at the start of
/// `bytes`, up to a truncated prefix at its end.
pub open spec fn complete_units(bytes: Seq<u8>) -> Seq<Unit>
    decreases bytes.len(),
{
    if bytes.len() == 0 {
        Seq::empty()
    } else {
        let s = scan_spec(bytes);
        if s is Truncated {
            Seq::empty()
        } else {
            proof {
                lemma_scan_len(bytes);
            }
            seq![unit_of(s)] + complete_units(bytes.skip(scan_len(s) as int))
        }
    }
}

/// The truncated prefix at the end of `bytes` that waits for more input (empty
/// when there is none).
pub open spec fn pending_tail(bytes: Seq<u8>) -> Seq<u8>
    decreases bytes.len(),
{
    if bytes.len() == 0 {
        Seq::empty()
    } else {
        let s = scan_spec(bytes);
        if s is Truncated {
            bytes
        } else {
            proof {
                lemma_scan_len(bytes);
            }
            pending_tail(bytes.skip(scan_len(s) as int))
        }
    }
}

/// The units of a whole stream: a truncated prefix at its end is one malformed unit.
pub open spec fn decode_units(bytes: Seq<u8>) -> Seq<Unit> {
    if pending_tail(bytes).len() > 0 {
        complete_units(bytes).push(Unit::Malformed)
    } else {
        complete_units(bytes)
    }
}


/// What a buffer begins with does not change when more bytes follow, unless the
/// buffer ends in the middle of a well-formed sequence.
pub proof fn lemma_scan_extend(a: Seq<u8>, b: Seq<u8>)
    requires
        a.len() > 0,
        !(scan_spec(a) is Truncated),
    ensures
        scan_spec(a + b) == scan_spec(a),
{
    let ab = a + b;
    assert(ab[0] == a[0]);
    if a.len() >= 2 {
        assert(ab[1] == a[1]);
    }
    if a.len() >= 3 {
        assert(ab[2] == a[2]);
    }
    if a.len() >= 4 {
        assert(ab[3] == a[3]);
    }
}

/// Decoding is prefix-stable: the units of `a + b` are the complete units of `a`
/// followed by those of the bytes that `a` left pending, followed by `b`.
pub proof fn lemma_units_split(a: Seq<u8>, b: Seq<u8>)
    ensures
        complete_units(a + b) == complete_units(a) + complete_units(pending_tail(a) + b),
        pending_tail(a + b) == pending_tail(pending_tail(a) + b),
    decreases a.len(),
{
    if a.len() == 0 {
        assert(a + b =~= b);
        assert(pending_tail(a) + b =~= b);
        assert(complete_units(a) + complete_units(b) =~= complete_units(b));
    } else {
        let s = scan_spec(a);
        lemma_scan_len(a);
        if s is Truncated {
            assert(complete_units(a) + complete_units(a + b) =~= complete_units(a + b));
        } else {
            lemma_scan_extend(a, b);
            let n = scan_len(s) as int;
            assert((a + b).skip(n) =~= a.skip(n) + b);
            lemma_units_split(a.skip(n), b);
            assert(complete_units(a + b) =~= seq![unit_of(s)] + complete_units((a + b).skip(n)));
            assert(complete_units(a) =~= seq![unit_of(s)] + complete_units(a.skip(n)));
        }
    }
}

/// A pending tail is empty or a truncated prefix of at most three bytes, which
/// holds no complete unit and stays pending.
pub proof fn lemma_pending_tail(bytes: Seq<u8>)
    ensures
        pending_tail(bytes).len() <= 3,
        pending_tail(bytes).len() > 0 ==> scan_spec(pending_tail(bytes)) is Truncated,
        complete_units(pending_tail(bytes)) == Seq::<Unit>::empty(),
        pending_tail(pending_tail(bytes)) == pending_tail(bytes),
    decreases bytes.len(),
{
    if bytes.len() > 0 {
        lemma_scan_len(bytes);
        let s = scan_spec(bytes);
        if !(s is Truncated) {
            lemma_pending_tail(bytes.skip(scan_len(s) as int));
        }
    }
}

/// A newline ends whatever the bytes before it held back: the held-back bytes
/// become one malformed unit, the newline a unit of its own, and nothing stays
/// pending.
pub proof fn lemma_newline_closes(p: Seq<u8>)
    requires
        p.len() == 0 || scan_spec(p) is Truncated,
    ensures
        complete_units(p.push(0x0a)).len() > 0,
        complete_units(p.push(0x0a)).last() == Unit::Scalar(0x0a),
        pending_tail(p.push(0x0a)) == Seq::<u8>::empty(),
{
    let q = p.push(0x0a);
    let n = p.len() as int;
    assert(q[n] == 0x0a);
    let nl: Seq<u8> = seq![0x0a];
    assert(q.skip(n) =~= nl);
    assert(nl.skip(1) =~= Seq::<u8>::empty());
    assert(nl[0] == 0x0a);
    assert(scan_spec(nl) == Scan::Scalar { value: 0x0a, len: 1 });
    assert(complete_units(nl.skip(1)) =~= Seq::<Unit>::empty());
    assert(complete_units(nl) == seq![Unit::Scalar(0x0a)] + complete_units(nl.skip(1)));
    assert(complete_units(nl) =~= seq![Unit::Scalar(0x0a)]);
    assert(pending_tail(nl) == pending_tail(nl.skip(1)));
    assert(pending_tail(nl) =~= Seq::<u8>::empty());
    if n == 0 {
        assert(q =~= nl);
    } else {
        lemma_scan_len(p);
        assert(q[0] == p[0]);
        if n >= 2 {
            assert(q[1] == p[1]);
        }
        if n >= 3 {
            assert(q[2] == p[2]);
        }
        assert(scan_spec(q) == Scan::Malformed { len: n as usize });
        assert(complete_units(q) =~= seq![Unit::Malformed] + complete_units(nl));
        assert(pending_tail(q) == pending_tail(nl));
    }
}

/// After a stream that ends with a newline, nothing is held back: the units of
/// the stream followed by `b` are its complete units followed by the units of
/// `b`, and its last unit is the newline.
pub proof fn lemma_units_after_newline(a: Seq<u8>, b: Seq<u8>)
    requires
        a.len() > 0,
        a.last() == 0x0a,
    ensures
        decode_units(a) == complete_units(a),
        complete_units(a).len() > 0,
        complete_units(a).last() == Unit::Scalar(0x0a),
        decode_units(a + b) == complete_units(a) + decode_units(b),
{
    let front = a.drop_last();
    let nl: Seq<u8> = seq![0x0a];
    assert(a =~= front + nl);
    lemma_units_split(front, nl);
    lemma_pending_tail(front);
    let p = pending_tail(front);
    assert(p + nl =~= p.push(0x0a));
    lemma_newline_closes(p);
    lemma_units_split(a, b);
    assert(Seq::<u8>::empty() + b =~= b);
    if pending_tail(b).len() > 0 {
        assert(complete_units(a + b).push(Unit::Malformed) =~= complete_units(a) + complete_units(
            b,
        ).push(Unit::Malformed));
    }
}

/// Every unit takes at least one byte: the complete units and the pending tail
/// together never outnumber the bytes.
pub proof fn lemma_units_bound(bytes: Seq<u8>)
    ensures
        complete_units(bytes).len() + pending_tail(bytes).len() <= bytes.len(),
        decode_units(bytes).len() <= bytes.len(),
    decreases bytes.len(),
{
    if bytes.len() > 0 {
        lemma_scan_len(bytes);
        let s = scan_spec(bytes);
        if !(s is Truncated) {
            lemma_units_bound(bytes.skip(scan_len(s) as int));
        }
    }
}

/// At the start of a well-formed UTF-8 encoding, the scan reads the scalar that
/// vstd's UTF-8 decoding reads there.
pub proof fn lemma_scan_valid_first_scalar(bytes: Seq<u8>)
    requires
        bytes.len() > 0,
        valid_first_scalar(bytes),
    ensures
        scan_spec(bytes) == (Scan::Scalar {
            value: decode_first_scalar(bytes),
            len: length_of_first_scalar(bytes) as usize,
        }),
        is_scalar(decode_first_scalar(bytes)),
{
    let b0 = bytes[0];
    if b0 <= 0x7f {
        assert(b0 <= 0x7f ==> (b0 & 0x7f) as u32 == b0 as u32) by (bit_vector);
    } else if b0 <= 0xdf {
        let b1 = bytes[1];
        assert(0xc0 <= b0 <= 0xc1 && 0x80 <= b1 <= 0xbf ==> ((((b0 & 0x1f) as u32) << 6) | ((b1
            & 0x3f) as u32)) < 0x80) by (bit_vector);
        assert(((((b0 & 0x1f) as u32) << 6) | ((b1 & 0x3f) as u32)) <= 0x7ff) by (bit_vector);
    } else if b0 <= 0xef {
        let b1 = bytes[1];
        let b2 = bytes[2];
        assert(((((b0 & 0x0f) as u32) << 12) | (((b1 & 0x3f) as u32) << 6) | ((b2 & 0x3f)
            as u32)) <= 0xffff) by (bit_vector);
        assert(b0 == 0xe0 && 0x80 <= b1 <= 0x9f && 0x80 <= b2 <= 0xbf ==> ((((b0 & 0x0f) as u32)
            << 12) | (((b1 & 0x3f) as u32) << 6) | ((b2 & 0x3f) as u32)) < 0x800) by (bit_vector);
        assert(b0 == 0xed && 0xa0 <= b1 <= 0xbf && 0x80 <= b2 <= 0xbf ==> 0xd800 <= ((((b0
            & 0x0f) as u32) << 12) | (((b1 & 0x3f) as u32) << 6) | ((b2 & 0x3f) as u32))
            <= 0xdfff) by (bit_vector);
    } else {
        let b1 = bytes[1];
        let b2 = bytes[2];
        let b3 = bytes[3];
        assert(0xf5 <= b0 <= 0xf7 && 0x80 <= b1 <= 0xbf && 0x80 <= b2 <= 0xbf && 0x80 <= b3
            <= 0xbf ==> ((((b0 & 0x07) as u32) << 18) | (((b1 & 0x3f) as u32) << 12) | (((b2
            & 0x3f) as u32) << 6) | ((b3 & 0x3f) as u32)) > 0x10ffff) by (bit_vector);
        assert(b0 == 0xf0 && 0x80 <= b1 <= 0x8f && 0x80 <= b2 <= 0xbf && 0x80 <= b3 <= 0xbf
            ==> ((((b0 & 0x07) as u32) << 18) | (((b1 & 0x3f) as u32) << 12) | (((b2 & 0x3f)
            as u32) << 6) | ((b3 & 0x3f) as u32)) < 0x10000) by (bit_vector);
        assert(b0 == 0xf4 && 0x90 <= b1 <= 0xbf && 0x80 <= b2 <= 0xbf && 0x80 <= b3 <= 0xbf
            ==> ((((b0 & 0x07) as u32) << 18) | (((b1 & 0x3f) as u32) << 12) | (((b2 & 0x3f)
            as u32) << 6) | ((b3 & 0x3f) as u32)) > 0x10ffff) by (bit_vector);
    }
}

/// Well-formed UTF-8 decodes, unit by unit, to the characters it encodes (as
/// vstd's `decode_utf8` defines them), with nothing malformed and nothing left
/// pending.
pub proof fn lemma_valid_utf8_units(bytes: Seq<u8>)
    requires
        valid_utf8(bytes),
    ensures
        complete_units(bytes) == decode_utf8(bytes).map_values(|c: char| Unit::Scalar(c as u32)),
        pending_tail(bytes) == Seq::<u8>::empty(),
        decode_units(bytes) == decode_utf8(bytes).map_values(|c: char| Unit::Scalar(c as u32)),
    decreases bytes.len(),
{
    if bytes.len() > 0 {
        lemma_scan_valid_first_scalar(bytes);
        let rest = pop_first_scalar(bytes);
        lemma_valid_utf8_units(rest);
        let v = decode_first_scalar(bytes);
        assert(is_scalar(v));
        assert((v as char) as u32 == v);
        assert(decode_utf8(bytes).map_values(|c: char| Unit::Scalar(c as u32)) =~= seq![
            Unit::Scalar(v),
        ] + decode_utf8(rest).map_values(|c: char| Unit::Scalar(c as u32)));
    } else {
        assert(decode_utf8(bytes).map_values(|c: char| Unit::Scalar(c as u32)) =~= Seq::<
            Unit,
        >::empty());
    }
}

/// Reads what `bytes` holds at `start`.
pub fn scan(bytes: &[u8], start: usize) -> (r: Scan)
    requires
        start < bytes@.len(),
    ensures
        r == scan_spec(bytes@.skip(start as int)),
{
    let ghost rest = bytes@.skip(start as int);
    let len = bytes.len();
    let b0 = bytes[start];
    assert(rest[0] == b0);
    if b0 <= 0x7f {
        return Scan::Scalar { value: b0 as u32, len: 1 };
    }
    let width: usize = if 0xc2 <= b0 && b0 <= 0xdf {
        2
    } else if 0xe0 <= b0 && b0 <= 0xef {
        3
    } else if 0xf0 <= b0 && b0 <= 0xf4 {
        4
    } else {
        return Scan::Malformed { len: 1 };
    };
    let avail = len - start;
    // how many bytes follow the pattern of a well-formed sequence
    let matched: usize = if avail < 2 {
        1
    } else {
        let b1 = bytes[start + 1];
        assert(rest[1] == b1);
        let fits = if b0 == 0xe0 {
            0xa0 <= b1 && b1 <= 0xbf
        } else if b0 == 0xed {
            0x80 <= b1 && b1 <= 0x9f
        } else if b0 == 0xf0 {
            0x90 <= b1 && b1 <= 0xbf
        } else if b0 == 0xf4 {
            0x80 <= b1 && b1 <= 0x8f
        } else {
            0x80 <= b1 && b1 <= 0xbf
        };
        if !fits {
            1
        } else if width == 2 || avail < 3 {
            2
        } else {
            let b2 = bytes[start + 2];
            assert(rest[2] == b2);
            if !(0x80 <= b2 && b2 <= 0xbf) {
                2
            } else if width == 3 || avail < 4 {
                3
            } else {
                let b3 = bytes[start + 3];
                assert(rest[3] == b3);
                if !(0x80 <= b3 && b3 <= 0xbf) {
                    3
                } else {
                    4
                }
            }
        }
    };
    assert(matched == matched_len(rest));
    if matched == width {
        let value: u32 = if width == 2 {
            (((b0 & 0x1f) as u32) << 6) | ((bytes[start + 1] & 0x3f) as u32)
        } else if width == 3 {
            (((b0 & 0x0f) as u32) << 12) | (((bytes[start + 1] & 0x3f) as u32) << 6) | ((
            bytes[start + 2] & 0x3f) as u32)
        } else {
            (((b0 & 0x07) as u32) << 18) | (((bytes[start + 1] & 0x3f) as u32) << 12) | (((
            bytes[start + 2] & 0x3f) as u32) << 6) | ((bytes[start + 3] & 0x3f) as u32)
        };
        Scan::Scalar { value, len: width }
    } else if matched == avail {
        Scan::Truncated
    } else {
        Scan::Malformed { len: matched }
    }
}

} // verus!
