//! The line protocol of the store's front end: how a request line is read,
//! and how each outcome is written back.
//!
//! A line is split at whitespace into at most three fields: the command,
//! the key, and the value, which is everything behind the key and may hold
//! whitespace itself. One whitespace byte ends one field; a run of them is
//! not taken together, so two in a row enclose an empty field.

use crate::entry::{DecodeError, DecodeErrorView};
use vstd::prelude::*;
use vstd::slice::slice_to_vec;
use vstd::string::{StringExecFns, StringSliceAdditionalSpecFns};
use vstd::utf8::{
    decode_utf8, encode_utf8_decode_utf8, encode_utf8_valid_utf8, is_char_boundary,
    is_char_boundary_iff_not_is_continuation_byte, is_char_boundary_start_end_of_seq, valid_utf8,
};

verus! {

/// Whether a byte separates the fields of a request: the space and the
/// other whitespace of ASCII, which are the tab, the line feed, the vertical
/// tab, the form feed and the carriage return.
pub open spec fn is_separator(byte: u8) -> bool {
    byte == 0x20 || 0x09 <= byte <= 0x0D
}

/// Whether a byte separates the fields of a request.
fn separates(byte: u8) -> (r: bool)
    ensures
        r == is_separator(byte),
{
    byte == 0x20 || (0x09 <= byte && byte <= 0x0D)
}

/// The number of bytes before the first separator, or the number of all
/// bytes where there is no separator.
pub open spec fn field_len(bytes: Seq<u8>) -> nat
    decreases bytes.len(),
{
    if bytes.len() == 0 || is_separator(bytes[0]) {
        0
    } else {
        1 + field_len(bytes.drop_first())
    }
}

/// The first field of a line: the bytes before the first separator.
pub open spec fn first_field(bytes: Seq<u8>) -> Seq<u8> {
    bytes.take(field_len(bytes) as int)
}

/// Whether anything follows the first field: whether the line holds a
/// separator.
pub open spec fn has_more(bytes: Seq<u8>) -> bool {
    field_len(bytes) < bytes.len()
}

/// What follows the first field and its separator; nothing where there is
/// no separator.
pub open spec fn after_first_field(bytes: Seq<u8>) -> Seq<u8> {
    if has_more(bytes) {
        bytes.skip(field_len(bytes) as int + 1)
    } else {
        Seq::empty()
    }
}

/// A position is the end of the first field if no separator comes before
/// it and a separator, or the end of the bytes, stands at it.
pub proof fn lemma_field_len(bytes: Seq<u8>, n: int)
    requires
        0 <= n <= bytes.len(),
        forall|i: int| 0 <= i < n ==> !is_separator(#[trigger] bytes[i]),
        n < bytes.len() ==> is_separator(bytes[n]),
    ensures
        field_len(bytes) == n,
    decreases bytes.len(),
{
    if n > 0 {
        assert(!is_separator(bytes[0]));
        let rest = bytes.drop_first();
        assert forall|i: int| 0 <= i < n - 1 implies !is_separator(#[trigger] rest[i]) by {
            assert(rest[i] == bytes[i + 1]);
        }
        lemma_field_len(rest, n - 1);
    }
}

/// Splits a text at its first separator: the text before it, and the text
/// behind it where there is a separator.
fn split_field<'a>(text: &'a str) -> (r: (&'a str, Option<&'a str>))
    ensures
        r.0.spec_bytes() == first_field(text.spec_bytes()),
        r.1 is Some <==> has_more(text.spec_bytes()),
        r.1 is Some ==> r.1->Some_0.spec_bytes() == after_first_field(text.spec_bytes()),
{
    let bytes = text.as_bytes();
    let mut n: usize = 0;
    while n < bytes.len() && !separates(bytes[n])
        invariant
            0 <= n <= bytes.len(),
            forall|i: int| 0 <= i < n ==> !is_separator(#[trigger] bytes@[i]),
        decreases bytes.len() - n,
    {
        n = n + 1;
    }
    proof {
        lemma_field_len(bytes@, n as int);
        encode_utf8_valid_utf8(text@);
        if n < bytes.len() {
            is_char_boundary_iff_not_is_continuation_byte(bytes@, n as int);
        } else {
            is_char_boundary_start_end_of_seq(bytes@);
        }
    }
    let (head, rest) = text.split_at(n);
    assert(head.spec_bytes() =~= first_field(text.spec_bytes()));
    if n == bytes.len() {
        (head, None)
    } else {
        proof {
            let rb = rest.spec_bytes();
            encode_utf8_valid_utf8(rest@);
            assert(is_separator(rb[0]));
            reveal_with_fuel(valid_utf8, 2);
            reveal_with_fuel(is_char_boundary, 2);
            assert(is_char_boundary(rb, 1));
        }
        let (_, tail) = rest.split_at(1);
        assert(tail.spec_bytes() =~= after_first_field(text.spec_bytes()));
        (head, Some(tail))
    }
}

/// What a client asks for.
#[derive(Debug)]
pub enum Request {
    /// Look a key up.
    Get { key: String },
    /// Write a value for a key.
    Put { key: String, value: Vec<u8> },
    /// Delete a key.
    Delete { key: String },
    /// A write without a value.
    MissingValue,
    /// No command that the store knows.
    Unknown,
}

/// The mathematical value of a [`Request`].
pub enum RequestView {
    Get { key: Seq<char> },
    Put { key: Seq<char>, value: Seq<u8> },
    Delete { key: Seq<char> },
    MissingValue,
    Unknown,
}

impl View for Request {
    type V = RequestView;

    open spec fn view(&self) -> RequestView {
        match self {
            Request::Get { key } => RequestView::Get { key: key@ },
            Request::Put { key, value } => RequestView::Put { key: key@, value: value@ },
            Request::Delete { key } => RequestView::Delete { key: key@ },
            Request::MissingValue => RequestView::MissingValue,
            Request::Unknown => RequestView::Unknown,
        }
    }
}

/// The bytes of the command `GET`.
pub open spec fn get_command() -> Seq<u8> {
    seq![0x47u8, 0x45u8, 0x54u8]
}

/// The bytes of the command `PUT`.
pub open spec fn put_command() -> Seq<u8> {
    seq![0x50u8, 0x55u8, 0x54u8]
}

/// The bytes of the command `DELETE`.
pub open spec fn delete_command() -> Seq<u8> {
    seq![0x44u8, 0x45u8, 0x4Cu8, 0x45u8, 0x54u8, 0x45u8]
}

/// The request that a line makes. The command is the first field and the
/// key the second, empty where it is missing. A `PUT` takes everything
/// behind the key as the value and is a request without a value where no
/// separator follows the key; the other commands ignore what follows the
/// key.
pub open spec fn request_of(line: Seq<u8>) -> RequestView {
    let command = first_field(line);
    let rest = after_first_field(line);
    let key = decode_utf8(first_field(rest));
    if command == get_command() {
        RequestView::Get { key }
    } else if command == put_command() {
        if has_more(rest) {
            RequestView::Put { key, value: after_first_field(rest) }
        } else {
            RequestView::MissingValue
        }
    } else if command == delete_command() {
        RequestView::Delete { key }
    } else {
        RequestView::Unknown
    }
}

/// Reads one request line, given without its line end.
pub fn parse_request(line: &str) -> (request: Request)
    ensures
        request@ == request_of(line.spec_bytes()),
{
    let (command, rest) = split_field(line);
    let (key, value) = match rest {
        Some(rest) => split_field(rest),
        None => {
            proof {
                assert(first_field(Seq::<u8>::empty()) =~= Seq::<u8>::empty());
                reveal_strlit("");
                assert(""@ =~= Seq::<char>::empty());
                assert("".spec_bytes() =~= Seq::<u8>::empty());
            }
            ("", None)
        },
    };
    proof {
        encode_utf8_decode_utf8(key@);
    }
    let word = command.as_bytes();
    if word.len() == 3 && word[0] == 0x47 && word[1] == 0x45 && word[2] == 0x54 {
        assert(word@ =~= get_command());
        Request::Get { key: String::from_str(key) }
    } else if word.len() == 3 && word[0] == 0x50 && word[1] == 0x55 && word[2] == 0x54 {
        assert(word@ =~= put_command());
        match value {
            Some(value) => Request::Put {
                key: String::from_str(key),
                value: slice_to_vec(value.as_bytes()),
            },
            None => Request::MissingValue,
        }
    } else if word.len() == 6 && word[0] == 0x44 && word[1] == 0x45 && word[2] == 0x4C && word[3]
        == 0x45 && word[4] == 0x54 && word[5] == 0x45 {
        assert(word@ =~= delete_command());
        Request::Delete { key: String::from_str(key) }
    } else {
        Request::Unknown
    }
}

/// Bytes as text for a reply: the text that valid UTF-8 encodes, and
/// otherwise what the standard library makes of the bytes by putting the
/// replacement character in place of what is invalid.
pub uninterp spec fn lossy_text(bytes: Seq<u8>) -> Seq<char>;

/// `String::from_utf8_lossy` turns bytes into text without failing. Valid
/// UTF-8 comes out as the text that it encodes. For other bytes the result
/// depends on the bytes alone and is known here only by the name
/// `lossy_text`.
#[verifier::external_body]
fn utf8_lossy(bytes: &[u8]) -> (text: String)
    ensures
        text@ == lossy_text(bytes@),
        valid_utf8(bytes@) ==> text@ == decode_utf8(bytes@),
{
    String::from_utf8_lossy(bytes).into_owned()
}

/// The line that reports an error.
pub open spec fn error_line(message: Seq<char>) -> Seq<char> {
    "ERROR "@ + message + "\n"@
}

/// The line that answers a lookup.
pub open spec fn lookup_line(found: Result<Option<Seq<u8>>, DecodeErrorView>) -> Seq<char> {
    match found {
        Ok(Some(value)) => "VALUE "@ + lossy_text(value) + "\n"@,
        Ok(None) => "NOT_FOUND\n"@,
        Err(e) => error_line(e.message()),
    }
}

/// The line that answers a write: `OK`, or the error that kept it from
/// being carried out.
pub open spec fn write_line(failure: Option<Seq<char>>) -> Seq<char> {
    match failure {
        None => "OK\n"@,
        Some(message) => error_line(message),
    }
}

/// The line that answers a request which needs no look at the store: one
/// without a value, or with an unknown command.
pub open spec fn refusal_line(request: RequestView) -> Option<Seq<char>> {
    match request {
        RequestView::MissingValue => Some(error_line("Missing value"@)),
        RequestView::Unknown => Some(error_line("Unknown command"@)),
        _ => None,
    }
}

/// The reply that reports an error.
pub fn error_reply(message: &str) -> (line: String)
    ensures
        line@ == error_line(message@),
{
    let mut line = String::from_str("ERROR ");
    line.append(message);
    line.append("\n");
    line
}

/// The reply to a lookup: the value as text, that nothing was found, or the
/// error that failed the lookup. A value that is valid UTF-8 is written as
/// the text that it encodes.
pub fn reply_to_get(found: &Result<Option<Vec<u8>>, DecodeError>) -> (line: String)
    ensures
        line@ == lookup_line(
            match found {
                Ok(Some(value)) => Ok(Some(value@)),
                Ok(None) => Ok(None),
                Err(e) => Err(e@),
            },
        ),
        match found {
            Ok(Some(value)) => valid_utf8(value@) ==> line@ == "VALUE "@ + decode_utf8(value@)
                + "\n"@,
            _ => true,
        },
{
    match found {
        Ok(Some(value)) => {
            let mut line = String::from_str("VALUE ");
            let text = utf8_lossy(value.as_slice());
            line.append(text.as_str());
            line.append("\n");
            line
        },
        Ok(None) => String::from_str("NOT_FOUND\n"),
        Err(e) => {
            let message = e.message();
            error_reply(message.as_str())
        },
    }
}

/// The reply to a put or a delete: `OK` where it was carried out, else the
/// error that the caller met.
pub fn reply_to_write(failure: Option<&str>) -> (line: String)
    ensures
        line@ == write_line(
            match failure {
                Some(message) => Some(message@),
                None => None,
            },
        ),
{
    match failure {
        None => String::from_str("OK\n"),
        Some(message) => error_reply(message),
    }
}

impl Request {
    /// The reply to a request that is answered without the store, and
    /// `None` for one that the store has to carry out.
    pub fn refusal(&self) -> (line: Option<String>)
        ensures
            match line {
                Some(text) => refusal_line(self@) == Some(text@),
                None => refusal_line(self@) is None,
            },
    {
        match self {
            Request::MissingValue => Some(error_reply("Missing value")),
            Request::Unknown => Some(error_reply("Unknown command")),
            _ => None,
        }
    }
}

} // verus!
