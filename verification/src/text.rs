//! Decimal numbers as text: how identifiers and byte values are written out.

use vstd::prelude::*;
use vstd::string::StringExecFns;

verus! {

/// The character of one decimal digit.
pub open spec fn digit_char(d: int) -> char {
    if d == 0 {
        '0'
    } else if d == 1 {
        '1'
    } else if d == 2 {
        '2'
    } else if d == 3 {
        '3'
    } else if d == 4 {
        '4'
    } else if d == 5 {
        '5'
    } else if d == 6 {
        '6'
    } else if d == 7 {
        '7'
    } else if d == 8 {
        '8'
    } else {
        '9'
    }
}

/// A number in decimal, without leading zeros (`0` is written `"0"`).
pub open spec fn decimal_text(n: nat) -> Seq<char>
    decreases n,
{
    if n < 10 {
        seq![digit_char(n as int)]
    } else {
        decimal_text(n / 10).push(digit_char((n % 10) as int))
    }
}

/// A run of `count` zeros.
pub open spec fn zeros(count: nat) -> Seq<char> {
    Seq::new(count, |i: int| '0')
}

/// A number in decimal, filled with zeros on the left up to `width` characters.
/// A number with more digits than that is written out in full.
pub open spec fn padded_decimal_text(n: nat, width: nat) -> Seq<char> {
    let digits = decimal_text(n);
    if digits.len() >= width {
        digits
    } else {
        zeros((width - digits.len()) as nat) + digits
    }
}

/// The text of one digit.
fn digit_str(d: u64) -> (s: &'static str)
    requires
        d < 10,
    ensures
        s@ == seq![digit_char(d as int)],
{
    proof {
        reveal_strlit("0");
        reveal_strlit("1");
        reveal_strlit("2");
        reveal_strlit("3");
        reveal_strlit("4");
        reveal_strlit("5");
        reveal_strlit("6");
        reveal_strlit("7");
        reveal_strlit("8");
        reveal_strlit("9");
    }
    let s = match d {
        0 => "0",
        1 => "1",
        2 => "2",
        3 => "3",
        4 => "4",
        5 => "5",
        6 => "6",
        7 => "7",
        8 => "8",
        _ => "9",
    };
    assert(s@ =~= seq![digit_char(d as int)]);
    s
}

/// How many digits `decimal_text` gives a number.
pub fn decimal_width(n: u64) -> (w: usize)
    ensures
        w == decimal_text(n as nat).len(),
        1 <= w <= 20,
    decreases n,
{
    if n < 10 {
        1
    } else {
        let w = decimal_width(n / 10);
        proof {
            lemma_decimal_width_bound(n as nat);
        }
        w + 1
    }
}

/// A number below `2^64` has at most twenty digits.
pub proof fn lemma_decimal_width_bound(n: nat)
    requires
        n <= u64::MAX,
    ensures
        1 <= decimal_text(n).len() <= 20,
{
    reveal_with_fuel(decimal_text, 21);
}

/// Writes a number in decimal at the end of `out`.
pub fn append_decimal(out: &mut String, n: u64)
    ensures
        final(out)@ == old(out)@ + decimal_text(n as nat),
    decreases n,
{
    if n < 10 {
        out.append(digit_str(n));
    } else {
        append_decimal(out, n / 10);
        out.append(digit_str(n % 10));
    }
    assert(out@ =~= old(out)@ + decimal_text(n as nat));
}

/// Writes a number in decimal at the end of `out`, filled with zeros on the
/// left up to `width` characters.
pub fn append_padded_decimal(out: &mut String, n: u64, width: usize)
    ensures
        final(out)@ == old(out)@ + padded_decimal_text(n as nat, width as nat),
{
    let digits = decimal_width(n);
    let mut written: usize = digits;
    while written < width
        invariant
            digits <= written,
            digits == decimal_text(n as nat).len(),
            digits >= width ==> written == digits,
            digits < width ==> written <= width,
            out@ == old(out)@ + zeros((written - digits) as nat),
        decreases width - written,
    {
        proof {
            reveal_strlit("0");
        }
        out.append("0");
        written = written + 1;
        assert(out@ =~= old(out)@ + zeros((written - digits) as nat));
    }
    append_decimal(out, n);
    assert(out@ =~= old(out)@ + padded_decimal_text(n as nat, width as nat));
}

/// Whether a character is a decimal digit.
pub open spec fn is_digit(c: char) -> bool {
    '0' <= c <= '9'
}

/// Whether a text is made of decimal digits alone.
pub open spec fn all_digits(s: Seq<char>) -> bool {
    forall|i: int| 0 <= i < s.len() ==> is_digit(#[trigger] s[i])
}

/// The number that a digit stands for.
pub open spec fn digit_of(c: char) -> int {
    c as int - 48
}

/// The number that a text of digits stands for, leading zeros allowed; the
/// empty text stands for zero.
pub open spec fn digits_value(s: Seq<char>) -> nat
    decreases s.len(),
{
    if s.len() == 0 {
        0
    } else {
        (digits_value(s.drop_last()) * 10 + digit_of(s.last())) as nat
    }
}

/// Each digit's character is a digit and stands for it.
pub proof fn lemma_digit_char(d: int)
    requires
        0 <= d < 10,
    ensures
        is_digit(digit_char(d)),
        digit_of(digit_char(d)) == d,
{
}

/// A number's decimal text is made of digits and stands for the number.
pub proof fn lemma_decimal_text_value(n: nat)
    ensures
        all_digits(decimal_text(n)),
        digits_value(decimal_text(n)) == n,
        decimal_text(n).len() >= 1,
    decreases n,
{
    if n < 10 {
        lemma_digit_char(n as int);
        let s = decimal_text(n);
        assert(s.drop_last() =~= Seq::<char>::empty());
        assert(digits_value(s.drop_last()) == 0);
    } else {
        lemma_decimal_text_value(n / 10);
        lemma_digit_char((n % 10) as int);
        let s = decimal_text(n);
        assert(s.drop_last() =~= decimal_text(n / 10));
        assert(s.last() == digit_char((n % 10) as int));
    }
}

/// Zeros in front change nothing of what digits stand for.
pub proof fn lemma_leading_zeros_value(count: nat, s: Seq<char>)
    ensures
        digits_value(zeros(count) + s) == digits_value(s),
        all_digits(s) ==> all_digits(zeros(count) + s),
    decreases s.len(), count,
{
    let t = zeros(count) + s;
    if s.len() == 0 {
        assert(t =~= zeros(count));
        if count > 0 {
            assert(t.drop_last() =~= zeros((count - 1) as nat) + s);
            lemma_leading_zeros_value((count - 1) as nat, s);
        }
    } else {
        assert(t.drop_last() =~= zeros(count) + s.drop_last());
        lemma_leading_zeros_value(count, s.drop_last());
    }
}

/// A zero-filled decimal text is made of digits, stands for its number, and
/// has the asked width at least.
pub proof fn lemma_padded_decimal_text_value(n: nat, width: nat)
    ensures
        all_digits(padded_decimal_text(n, width)),
        digits_value(padded_decimal_text(n, width)) == n,
        padded_decimal_text(n, width).len() >= width,
        padded_decimal_text(n, width).len() >= 1,
{
    lemma_decimal_text_value(n);
    let digits = decimal_text(n);
    if digits.len() < width {
        lemma_leading_zeros_value((width - digits.len()) as nat, digits);
    }
}

/// The digits read so far never stand for more than all of them do.
pub proof fn lemma_prefix_value_le(s: Seq<char>, i: int)
    requires
        all_digits(s),
        0 <= i <= s.len(),
    ensures
        digits_value(s.take(i)) <= digits_value(s),
    decreases s.len() - i,
{
    if i < s.len() {
        lemma_prefix_value_le(s, i + 1);
        let t = s.take(i + 1);
        assert(t.drop_last() =~= s.take(i));
        assert(is_digit(s[i]));
        assert(t.last() == s[i]);
    } else {
        assert(s.take(i) =~= s);
    }
}

} // verus!
