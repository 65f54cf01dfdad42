//! How a segment's file is named: a fixed prefix, the ordinal identifier in
//! decimal, filled with zeros to five digits, and a fixed extension. The
//! identifier of the file `segment-00001.log` is 1.

use crate::text::{
    all_digits, append_padded_decimal, digit_of, digits_value, is_digit,
    lemma_padded_decimal_text_value, lemma_prefix_value_le, padded_decimal_text,
};
use vstd::prelude::*;
use vstd::string::{StrSliceExecFns, StringExecFns};
use vstd::utf8::is_ascii_chars;

verus! {

/// The width to which an identifier is filled with zeros.
pub const ID_WIDTH: usize = 5;

/// The name of the file that holds the segment `id`.
pub open spec fn segment_file_text(id: nat) -> Seq<char> {
    "segment-"@ + padded_decimal_text(id, ID_WIDTH as nat) + ".log"@
}

/// The name of the file that holds the segment `id`.
pub fn segment_file_name(id: u64) -> (name: String)
    ensures
        name@ == segment_file_text(id as nat),
{
    let mut name = String::from_str("segment-");
    append_padded_decimal(&mut name, id, ID_WIDTH);
    name.append(".log");
    name
}

/// The parts of a segment's file name: eight characters of prefix, then
/// digits that stand for the identifier, then four characters of extension,
/// all of them ASCII.
pub proof fn lemma_segment_file_text_shape(id: nat)
    ensures
        segment_file_text(id).len() >= 17,
        is_ascii_chars(segment_file_text(id)),
        segment_file_text(id).subrange(8, segment_file_text(id).len() - 4) == padded_decimal_text(
            id,
            ID_WIDTH as nat,
        ),
        all_digits(padded_decimal_text(id, ID_WIDTH as nat)),
        digits_value(padded_decimal_text(id, ID_WIDTH as nat)) == id,
{
    reveal_strlit("segment-");
    reveal_strlit(".log");
    lemma_padded_decimal_text_value(id, ID_WIDTH as nat);
    let text = segment_file_text(id);
    let digits = padded_decimal_text(id, ID_WIDTH as nat);
    assert(text.subrange(8, text.len() - 4) =~= digits);
    assert forall|i: int| 0 <= i < text.len() implies '\0' <= #[trigger] text[i] <= '\u{7f}' by {
        if 8 <= i < 8 + digits.len() {
            assert(is_digit(digits[i - 8]));
            assert(text[i] == digits[i - 8]);
        }
    }
}

/// Two segments never share a file name.
pub proof fn lemma_segment_file_text_injective(a: nat, b: nat)
    requires
        segment_file_text(a) == segment_file_text(b),
    ensures
        a == b,
{
    lemma_segment_file_text_shape(a);
    lemma_segment_file_text_shape(b);
}

/// Reads a file name as that of a segment: `Some(id)` exactly when the name
/// is the one that the segment `id` is stored under, `None` for every other
/// name.
pub fn parse_segment_name(name: &str) -> (r: Option<u64>)
    ensures
        match r {
            Some(id) => name@ == segment_file_text(id as nat),
            None => forall|id: u64| name@ != segment_file_text(id as nat),
        },
{
    if !name.is_ascii() {
        assert forall|id: u64| name@ != segment_file_text(id as nat) by {
            lemma_segment_file_text_shape(id as nat);
        }
        return None;
    }
    let n: usize = name.as_bytes().len();
    proof {
        vstd::string::is_ascii_spec_bytes(name);
    }
    if n < 17 {
        assert forall|id: u64| name@ != segment_file_text(id as nat) by {
            lemma_segment_file_text_shape(id as nat);
        }
        return None;
    }
    let ghost digits = name@.subrange(8, n - 4);
    let mut value: u64 = 0;
    let mut i: usize = 8;
    while i < n - 4
        invariant
            name.is_ascii(),
            n == name@.len(),
            n >= 17,
            8 <= i <= n - 4,
            digits == name@.subrange(8, n - 4),
            value == digits_value(digits.take(i - 8)),
            all_digits(digits.take(i - 8)),
        decreases n - i,
    {
        let b: u8 = name.get_ascii(i);
        if b < 48 || b > 57 {
            assert forall|id: u64| name@ != segment_file_text(id as nat) by {
                lemma_segment_file_text_shape(id as nat);
                if name@ == segment_file_text(id as nat) {
                    assert(is_digit(digits[i - 8]));
                }
            }
            return None;
        }
        let d: u64 = (b - 48) as u64;
        let ghost longer = digits.take(i - 8 + 1);
        proof {
            assert(longer.drop_last() =~= digits.take(i - 8));
            assert(longer.last() == name@[i as int]);
            assert(is_digit(name@[i as int]));
            assert(digit_of(name@[i as int]) == d);
            assert(digits_value(longer) == value * 10 + d);
            assert forall|j: int| 0 <= j < longer.len() implies is_digit(#[trigger] longer[j]) by {
                if j < i - 8 {
                    assert(longer[j] == digits.take(i - 8)[j]);
                }
            }
        }
        if value > (u64::MAX - d) / 10 {
            assert forall|id: u64| name@ != segment_file_text(id as nat) by {
                lemma_segment_file_text_shape(id as nat);
                if name@ == segment_file_text(id as nat) {
                    lemma_prefix_value_le(digits, i - 8 + 1);
                }
            }
            return None;
        }
        value = value * 10 + d;
        i = i + 1;
    }
    assert(digits.take(i - 8) =~= digits);
    let candidate = segment_file_name(value);
    let owned = String::from_str(name);
    if candidate == owned {
        Some(value)
    } else {
        assert forall|id: u64| name@ != segment_file_text(id as nat) by {
            lemma_segment_file_text_shape(id as nat);
        }
        None
    }
}

} // verus!
