//! Building strings: decimal numerals, padding and joining.

use vstd::prelude::*;

verus! {

/// The character of a decimal digit.
pub open spec fn digit(d: nat) -> char {
    (d + 48) as char
}

/// The decimal numeral of `n`, without leading zeros.
pub open spec fn decimal(n: nat) -> Seq<char>
    decreases n,
{
    if n < 10 {
        seq![digit(n)]
    } else {
        decimal(n / 10).push(digit(n % 10))
    }
}

/// Numerals below a thousand, digit by digit: one digit below ten, two below a
/// hundred, three below a thousand, most significant first.
pub proof fn lemma_small_decimal(n: nat)
    ensures
        n < 10 ==> decimal(n) == seq![digit(n)],
        10 <= n < 100 ==> decimal(n) == seq![digit(n / 10), digit(n % 10)],
        100 <= n < 1000 ==> decimal(n) == seq![digit(n / 100), digit((n / 10) % 10), digit(n % 10)],
{
    if 10 <= n < 1000 {
        assert(decimal(n / 10) == if n / 10 < 10 {
            seq![digit(n / 10)]
        } else {
            decimal(n / 10 / 10).push(digit((n / 10) % 10))
        });
        if n >= 100 {
            assert(n / 10 / 10 == n / 100);
            assert(decimal(n / 100) == seq![digit(n / 100)]);
            assert(decimal(n / 10) =~= seq![digit(n / 100), digit((n / 10) % 10)]);
        }
    }
    if n >= 10 && n < 1000 {
        assert(decimal(n) == decimal(n / 10).push(digit(n % 10)));
    }
}

/// `n` spaces.
pub open spec fn spaces(n: nat) -> Seq<char> {
    Seq::new(n, |i: int| ' ')
}

/// `String::push`: appends the char to the end of the string.
#[verifier::external_body]
pub fn push_char(s: &mut String, c: char)
    ensures
        final(s)@ == old(s)@.push(c),
{
    s.push(c)
}

fn digit_char(d: u128) -> (c: char)
    requires
        d < 10,
    ensures
        c == digit(d as nat),
{
    let b: u8 = d as u8 + 48;
    b as char
}

/// Appends the decimal numeral of `n`.
pub fn push_decimal(s: &mut String, n: u128)
    ensures
        final(s)@ == old(s)@ + decimal(n as nat),
    decreases n,
{
    if n >= 10 {
        push_decimal(s, n / 10);
    }
    push_char(s, digit_char(n % 10));
    proof {
        if n >= 10 {
            assert(old(s)@ + decimal(n as nat) =~= old(s)@ + decimal((n / 10) as nat) + seq![
                digit((n % 10) as nat),
            ]);
        } else {
            assert(old(s)@ + decimal(n as nat) =~= old(s)@.push(digit((n % 10) as nat)));
        }
    }
}

/// The decimal numeral of `n`.
pub fn decimal_string(n: u128) -> (s: String)
    ensures
        s@ == decimal(n as nat),
{
    let mut s = String::new();
    push_decimal(&mut s, n);
    assert(Seq::<char>::empty() + decimal(n as nat) =~= decimal(n as nat));
    s
}

/// Appends `n` spaces.
pub fn push_spaces(s: &mut String, n: usize)
    ensures
        final(s)@ == old(s)@ + spaces(n as nat),
{
    let mut i: usize = 0;
    assert(old(s)@ + spaces(0) =~= old(s)@);
    while i < n
        invariant
            i <= n,
            s@ == old(s)@ + spaces(i as nat),
        decreases n - i,
    {
        push_char(s, ' ');
        assert(old(s)@ + spaces((i + 1) as nat) =~= (old(s)@ + spaces(i as nat)).push(' '));
        i = i + 1;
    }
}

} // verus!
