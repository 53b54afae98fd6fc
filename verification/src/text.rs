//! Building strings one character at a time, and writing numbers in decimal.
use vstd::prelude::*;

verus! {

/// `String::push` of the standard library: afterwards the string is what it
/// was before, followed by `c`.
#[verifier::external_body]
pub(crate) fn push_char(s: &mut String, c: char)
    ensures
        final(s)@ == old(s)@.push(c),
{
    s.push(c)
}

/// Appends `chars` to `s`, in order.
pub fn push_chars(s: &mut String, chars: &Vec<char>)
    ensures
        final(s)@ == old(s)@ + chars@,
{
    let mut i: usize = 0;
    while i < chars.len()
        invariant
            i <= chars.len(),
            s@ == old(s)@ + chars@.take(i as int),
        decreases chars.len() - i,
    {
        push_char(s, chars[i]);
        assert(chars@.take(i + 1) == chars@.take(i as int).push(chars[i as int]));
        i = i + 1;
    }
    assert(chars@.take(i as int) == chars@);
}

/// The character for one decimal digit.
pub open spec fn digit(d: int) -> char {
    if d == 0 {
        '0'
    } else if d == 1 {
        '1'
    } else if d == 2 {
        '2'
    } else if d == 3 {
        '3'
    } else if d == 4 {
        '4'
    } else if d == 5 {
        '5'
    } else if d == 6 {
        '6'
    } else if d == 7 {
        '7'
    } else if d == 8 {
        '8'
    } else {
        '9'
    }
}

/// The digit that a character stands for; 0 for a character that is no
/// digit.
pub open spec fn digit_value(c: char) -> int {
    if c == '1' {
        1
    } else if c == '2' {
        2
    } else if c == '3' {
        3
    } else if c == '4' {
        4
    } else if c == '5' {
        5
    } else if c == '6' {
        6
    } else if c == '7' {
        7
    } else if c == '8' {
        8
    } else if c == '9' {
        9
    } else {
        0
    }
}

/// Whether `c` is one of `0` to `9`.
pub open spec fn is_digit(c: char) -> bool {
    c == '0' || digit_value(c) > 0
}

/// `n` in decimal: most significant digit first, no sign, no leading zero
/// (but the one digit of 0).
pub open spec fn decimal(n: nat) -> Seq<char>
    decreases n,
{
    if n < 10 {
        seq![digit(n as int)]
    } else {
        decimal(n / 10).push(digit((n % 10) as int))
    }
}

/// The number that a sequence of digits stands for, read as decimal.
pub open spec fn decimal_value(digits: Seq<char>) -> nat
    decreases digits.len(),
{
    if digits.len() == 0 {
        0
    } else {
        (decimal_value(digits.drop_last()) * 10 + digit_value(digits.last())) as nat
    }
}

/// Decimal notation loses nothing: it holds digits only, starts with `0`
/// for 0 alone, and reads back as the number it was written for.
pub proof fn lemma_decimal_reads_back(n: nat)
    ensures
        decimal(n).len() >= 1,
        forall|i: int| 0 <= i < decimal(n).len() ==> is_digit(#[trigger] decimal(n)[i]),
        decimal(n)[0] == '0' <==> n == 0,
        decimal_value(decimal(n)) == n,
    decreases n,
{
    if n < 10 {
        assert(decimal(n).drop_last() == Seq::<char>::empty());
        assert(decimal_value(decimal(n).drop_last()) == 0);
    } else {
        lemma_decimal_reads_back(n / 10);
        let front = decimal(n / 10);
        assert(decimal(n).drop_last() == front);
        assert(decimal(n)[0] == front[0]);
        assert forall|i: int| 0 <= i < decimal(n).len() implies is_digit(
            #[trigger] decimal(n)[i],
        ) by {
            if i < front.len() {
                assert(decimal(n)[i] == front[i]);
            }
        }
    }
}

/// The character for the digit `d`.
fn digit_char(d: u64) -> (c: char)
    requires
        d < 10,
    ensures
        c == digit(d as int),
{
    if d == 0 {
        '0'
    } else if d == 1 {
        '1'
    } else if d == 2 {
        '2'
    } else if d == 3 {
        '3'
    } else if d == 4 {
        '4'
    } else if d == 5 {
        '5'
    } else if d == 6 {
        '6'
    } else if d == 7 {
        '7'
    } else if d == 8 {
        '8'
    } else {
        '9'
    }
}

/// Appends `n` in decimal to `s`.
pub fn push_decimal(s: &mut String, n: u64)
    ensures
        final(s)@ == old(s)@ + decimal(n as nat),
    decreases n,
{
    if n >= 10 {
        push_decimal(s, n / 10);
    }
    push_char(s, digit_char(n % 10));
}

/// `n` in decimal.
pub fn to_decimal(n: u64) -> (s: String)
    ensures
        s@ == decimal(n as nat),
{
    let mut s = String::new();
    push_decimal(&mut s, n);
    s
}

} // verus!
