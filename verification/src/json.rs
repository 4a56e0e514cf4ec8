//! JSON string literals: how a string is written as a literal, where a literal
//! ends in a byte stream, and which string a literal stands for.
//!
//! Writing and reading the literal itself is left to `serde_json`; what this
//! module adds is the framing around it, on bytes.

use crate::kvs_error::KvsError;
use vstd::prelude::*;
use vstd::string::*;
use vstd::utf8::*;

verus! {

/// The bytes of a text made of ASCII characters only.
pub open spec fn ascii(text: Seq<char>) -> Seq<u8> {
    Seq::new(text.len(), |i: int| text[i] as u8)
}

/// The lower-case hexadecimal digit for `n`, where `0 <= n < 16`.
pub open spec fn hex_digit(n: int) -> u8 {
    if n < 10 {
        (0x30 + n) as u8
    } else {
        (0x57 + n) as u8
    }
}

/// How one byte of a string is written inside a literal: the quote, the
/// backslash and the control characters are escaped, every other byte stands
/// for itself.
pub open spec fn escape_byte(b: u8) -> Seq<u8> {
    if b == 0x22 {
        seq![0x5cu8, 0x22u8]
    } else if b == 0x5c {
        seq![0x5cu8, 0x5cu8]
    } else if b == 0x08 {
        seq![0x5cu8, 0x62u8]
    } else if b == 0x09 {
        seq![0x5cu8, 0x74u8]
    } else if b == 0x0a {
        seq![0x5cu8, 0x6eu8]
    } else if b == 0x0c {
        seq![0x5cu8, 0x66u8]
    } else if b == 0x0d {
        seq![0x5cu8, 0x72u8]
    } else if b < 0x20 {
        seq![0x5cu8, 0x75u8, 0x30u8, 0x30u8, hex_digit(b as int / 16), hex_digit(b as int % 16)]
    } else {
        seq![b]
    }
}

/// The escaped form of a run of bytes, byte by byte.
pub open spec fn escape_bytes(bytes: Seq<u8>) -> Seq<u8>
    decreases bytes.len(),
{
    if bytes.len() == 0 {
        Seq::empty()
    } else {
        escape_byte(bytes[0]) + escape_bytes(bytes.drop_first())
    }
}

/// The literal for `s`: its UTF-8 bytes, escaped, between two quotes.
pub open spec fn quoted(s: Seq<char>) -> Seq<u8> {
    seq![0x22u8] + escape_bytes(encode_utf8(s)) + seq![0x22u8]
}

/// From `i` on, the index just past the first quote that no backslash
/// escapes; `None` where the bytes end before one is found.
pub open spec fn closing(bytes: Seq<u8>, i: int) -> Option<int>
    decreases bytes.len() - i,
{
    if i < 0 || i >= bytes.len() {
        None
    } else if bytes[i] == 0x22 {
        Some(i + 1)
    } else if bytes[i] == 0x5c {
        if i + 1 < bytes.len() {
            closing(bytes, i + 2)
        } else {
            None
        }
    } else {
        closing(bytes, i + 1)
    }
}

/// The index just past the literal that opens at `start`, if one opens there
/// and is closed.
pub open spec fn literal_end(bytes: Seq<u8>, start: int) -> Option<int> {
    if 0 <= start < bytes.len() && bytes[start] == 0x22 {
        closing(bytes, start + 1)
    } else {
        None
    }
}

/// What `serde_json` reads from `bytes` as one JSON string: the string, or
/// `None` where it reports an error.
pub uninterp spec fn parsed_string(bytes: Seq<u8>) -> Option<Seq<char>>;

/// The string that `bytes` stands for. Bytes that are the literal of a string
/// stand for that string; on any other bytes the parser decides.
pub open spec fn string_value(bytes: Seq<u8>) -> Option<Seq<char>> {
    if exists|s: Seq<char>| quoted(s) == bytes {
        Some(choose|s: Seq<char>| quoted(s) == bytes)
    } else {
        parsed_string(bytes)
    }
}

/// The string whose literal opens at `start`, with the index just past it.
pub open spec fn string_at(bytes: Seq<u8>, start: int) -> Option<(Seq<char>, int)> {
    match literal_end(bytes, start) {
        Some(end) => match string_value(bytes.subrange(start, end)) {
            Some(s) => Some((s, end)),
            None => None,
        },
        None => None,
    }
}

/// Whether `text` stands in `bytes` at `pos`.
pub open spec fn occurs_at(bytes: Seq<u8>, pos: int, text: Seq<u8>) -> bool {
    0 <= pos && pos + text.len() <= bytes.len() && bytes.subrange(pos, pos + text.len()) == text
}

/// `serde_json::Error`, taken as it is.
#[verifier::external_type_specification]
#[verifier::external_body]
pub struct ExJsonError(serde_json::Error);

/// `serde_json::to_vec` on a string slice. The result is the literal of the
/// string, as `quoted` spells it out. It is never an error: a string
/// serialises to memory without fail.
#[verifier::external_body]
pub(crate) fn to_json(s: &str) -> (r: Result<Vec<u8>, serde_json::Error>)
    ensures
        r is Ok,
        r.unwrap()@ == quoted(s@),
{
    serde_json::to_vec(s)
}

/// `serde_json::from_slice` for a `String`. The result is what the parser
/// reads from the bytes; where the bytes are the literal of a string, it reads
/// that string back.
#[verifier::external_body]
pub(crate) fn from_json(bytes: &[u8]) -> (r: Result<String, serde_json::Error>)
    ensures
        r is Ok <==> parsed_string(bytes@) is Some,
        r is Ok ==> parsed_string(bytes@) == Some(r.unwrap()@),
        forall|s: Seq<char>| #[trigger] quoted(s) == bytes@ ==> r is Ok && r.unwrap()@ == s,
{
    serde_json::from_slice::<String>(bytes)
}

/// The text of a `serde_json::Error`, as its `Display` gives it.
#[verifier::external_body]
pub(crate) fn json_error_text(e: &serde_json::Error) -> String {
    e.to_string()
}

/// Appends `src` to `out`.
pub(crate) fn append_bytes(out: &mut Vec<u8>, src: &[u8])
    ensures
        final(out)@ == old(out)@ + src@,
{
    let mut i: usize = 0;
    while i < src.len()
        invariant
            i <= src.len(),
            out@ == old(out)@ + src@.subrange(0, i as int),
        decreases src.len() - i,
    {
        out.push(src[i]);
        i += 1;
    }
    assert(src@.subrange(0, src@.len() as int) == src@);
}

/// Appends the bytes of an ASCII text to `out`.
pub(crate) fn append_text(out: &mut Vec<u8>, text: &str)
    requires
        is_ascii(text),
    ensures
        final(out)@ == old(out)@ + ascii(text@),
{
    broadcast use is_ascii_spec_bytes;

    append_bytes(out, text.as_bytes());
}

/// Appends the literal of `s` to `out`.
pub(crate) fn append_quoted(out: &mut Vec<u8>, s: &str)
    ensures
        final(out)@ == old(out)@ + quoted(s@),
{
    match to_json(s) {
        Ok(lit) => append_bytes(out, lit.as_slice()),
        // A string serialises without fail.
        Err(_) => {},
    }
}

/// Whether the ASCII text stands in `bytes` at `pos`.
pub(crate) fn has_text_at(bytes: &[u8], pos: usize, text: &str) -> (r: bool)
    requires
        is_ascii(text),
    ensures
        r == occurs_at(bytes@, pos as int, ascii(text@)),
{
    broadcast use is_ascii_spec_bytes;

    let t = text.as_bytes();
    let n = t.len();
    if pos > bytes.len() || n > bytes.len() - pos {
        return false;
    }
    let mut i: usize = 0;
    while i < n
        invariant
            i <= n,
            n == t@.len(),
            t@ == ascii(text@),
            pos + n <= bytes@.len() <= usize::MAX,
            forall|j: int| 0 <= j < i ==> bytes@[pos + j] == t@[j],
        decreases n - i,
    {
        if bytes[pos + i] != t[i] {
            assert(bytes@.subrange(pos as int, pos + n)[i as int] == bytes@[pos + i]);
            return false;
        }
        i += 1;
    }
    assert(bytes@.subrange(pos as int, pos + n) =~= t@);
    true
}

/// Steps over the ASCII text at `pos`, where it stands there.
pub(crate) fn skip_text(bytes: &[u8], pos: usize, text: &str) -> (r: Option<usize>)
    requires
        is_ascii(text),
    ensures
        r is Some <==> occurs_at(bytes@, pos as int, ascii(text@)),
        r is Some ==> r.unwrap() == pos + ascii(text@).len(),
{
    broadcast use is_ascii_spec_bytes;

    if has_text_at(bytes, pos, text) {
        let t = text.as_bytes();
        let total = bytes.len();
        assert(t@ =~= ascii(text@));
        assert(pos + t@.len() <= total);
        Some(pos + t.len())
    } else {
        None
    }
}

/// The error for bytes that are not in the expected format, with `what` as its text.
pub(crate) fn malformed(what: &str) -> (r: KvsError)
    ensures
        r is SerdeError,
        r->SerdeError_0@ == what@,
{
    KvsError::SerdeError(String::from_str(what))
}

/// Finds the end of the literal that opens at `start`.
pub(crate) fn find_literal_end(bytes: &[u8], start: usize) -> (r: Option<usize>)
    ensures
        match r {
            Some(end) => literal_end(bytes@, start as int) == Some(end as int) && start < end
                <= bytes@.len(),
            None => literal_end(bytes@, start as int) is None,
        },
{
    if start >= bytes.len() || bytes[start] != 0x22 {
        return None;
    }
    let mut i: usize = start + 1;
    while i < bytes.len()
        invariant
            start < i,
            start < bytes@.len(),
            bytes@[start as int] == 0x22,
            closing(bytes@, i as int) == closing(bytes@, start + 1),
        decreases bytes.len() - i,
    {
        let b = bytes[i];
        if b == 0x22 {
            return Some(i + 1);
        } else if b == 0x5c {
            if i + 1 >= bytes.len() {
                return None;
            }
            i += 2;
        } else {
            i += 1;
        }
    }
    None
}

/// Reads the string whose literal opens at `start`. An error carries the
/// parser's text, or says that no literal stands there.
pub(crate) fn read_string(bytes: &[u8], start: usize) -> (r: Result<(String, usize), String>)
    ensures
        match r {
            Ok((s, end)) => string_at(bytes@, start as int) == Some((s@, end as int)) && start
                < end <= bytes@.len(),
            Err(_) => string_at(bytes@, start as int) is None,
        },
{
    match find_literal_end(bytes, start) {
        None => Err("expected a string".to_string()),
        Some(end) => {
            let lit = vstd::slice::slice_subrange(bytes, start, end);
            match from_json(lit) {
                Ok(s) => {
                    proof {
                        if exists|t: Seq<char>| quoted(t) == lit@ {
                            let t = choose|t: Seq<char>| quoted(t) == lit@;
                            assert(quoted(t) == lit@);
                        }
                    }
                    Ok((s, end))
                },
                Err(e) => {
                    proof {
                        if exists|t: Seq<char>| quoted(t) == lit@ {
                            let t = choose|t: Seq<char>| quoted(t) == lit@;
                            assert(quoted(t) == lit@);
                        }
                    }
                    Err(json_error_text(&e))
                },
            }
        },
    }
}

/// Whether the bytes from `pos` on are the start of `text` with more to
/// come: they end before `text` does, and each of them is the byte of `text`
/// at its place.
pub open spec fn text_cut(bytes: Seq<u8>, pos: int, text: Seq<u8>) -> bool {
    &&& 0 <= pos <= bytes.len()
    &&& bytes.len() - pos < text.len()
    &&& bytes.subrange(pos, bytes.len() as int) == text.subrange(0, bytes.len() - pos)
}

/// Whether a literal may still come at `start`: the bytes end there, or a
/// literal opens there and the bytes end before it is closed.
pub open spec fn literal_cut(bytes: Seq<u8>, start: int) -> bool {
    start == bytes.len() || (0 <= start < bytes.len() && bytes[start] == 0x22 && closing(
        bytes,
        start + 1,
    ) is None)
}

/// Whether the bytes from `pos` on are the start, with more to come, of
/// `head`, a literal and `last`, one after the other.
pub open spec fn frame_cut(bytes: Seq<u8>, pos: int, head: Seq<u8>, last: Seq<u8>) -> bool {
    if occurs_at(bytes, pos, head) {
        match literal_end(bytes, pos + head.len()) {
            Some(end) => text_cut(bytes, end, last),
            None => literal_cut(bytes, pos + head.len()),
        }
    } else {
        text_cut(bytes, pos, head)
    }
}

/// Whether the bytes from `pos` on are the start, with more to come, of
/// `head`, a literal, `middle`, a literal and `last`, one after the other.
pub open spec fn pair_cut(
    bytes: Seq<u8>,
    pos: int,
    head: Seq<u8>,
    middle: Seq<u8>,
    last: Seq<u8>,
) -> bool {
    if occurs_at(bytes, pos, head) {
        match literal_end(bytes, pos + head.len()) {
            Some(end) => frame_cut(bytes, end, middle, last),
            None => literal_cut(bytes, pos + head.len()),
        }
    } else {
        text_cut(bytes, pos, head)
    }
}

/// Whether the bytes from `pos` on are the start of the ASCII text with more
/// to come.
pub(crate) fn text_cut_at(bytes: &[u8], pos: usize, text: &str) -> (r: bool)
    requires
        is_ascii(text),
    ensures
        r == text_cut(bytes@, pos as int, ascii(text@)),
{
    broadcast use is_ascii_spec_bytes;

    let t = text.as_bytes();
    assert(t@ =~= ascii(text@));
    if pos > bytes.len() || bytes.len() - pos >= t.len() {
        return false;
    }
    let n = bytes.len() - pos;
    let mut i: usize = 0;
    while i < n
        invariant
            i <= n,
            n == bytes@.len() - pos,
            bytes@.len() <= usize::MAX,
            n < t@.len(),
            t@ == ascii(text@),
            forall|j: int| 0 <= j < i ==> bytes@[pos + j] == t@[j],
        decreases n - i,
    {
        if bytes[pos + i] != t[i] {
            assert(bytes@.subrange(pos as int, bytes@.len() as int)[i as int] == bytes@[pos + i]);
            assert(t@.subrange(0, n as int)[i as int] == t@[i as int]);
            return false;
        }
        i += 1;
    }
    assert(bytes@.subrange(pos as int, bytes@.len() as int) =~= t@.subrange(0, n as int));
    true
}

/// Whether a literal may still come at `start`.
pub(crate) fn literal_cut_at(bytes: &[u8], start: usize) -> (r: bool)
    ensures
        r == literal_cut(bytes@, start as int),
{
    if start == bytes.len() {
        return true;
    }
    if start > bytes.len() || bytes[start] != 0x22 {
        return false;
    }
    find_literal_end(bytes, start).is_none()
}

/// Whether the bytes from `pos` on are the start, with more to come, of
/// `head`, a literal and `last`.
pub(crate) fn frame_cut_at(bytes: &[u8], pos: usize, head: &str, last: &str) -> (r: bool)
    requires
        is_ascii(head),
        is_ascii(last),
    ensures
        r == frame_cut(bytes@, pos as int, ascii(head@), ascii(last@)),
{
    match skip_text(bytes, pos, head) {
        Some(p0) => match find_literal_end(bytes, p0) {
            Some(end) => text_cut_at(bytes, end, last),
            None => literal_cut_at(bytes, p0),
        },
        None => text_cut_at(bytes, pos, head),
    }
}

/// Whether the bytes from `pos` on are the start, with more to come, of
/// `head`, a literal, `middle`, a literal and `last`.
pub(crate) fn pair_cut_at(bytes: &[u8], pos: usize, head: &str, middle: &str, last: &str) -> (r:
    bool)
    requires
        is_ascii(head),
        is_ascii(middle),
        is_ascii(last),
    ensures
        r == pair_cut(bytes@, pos as int, ascii(head@), ascii(middle@), ascii(last@)),
{
    match skip_text(bytes, pos, head) {
        Some(p0) => match find_literal_end(bytes, p0) {
            Some(end) => frame_cut_at(bytes, end, middle, last),
            None => literal_cut_at(bytes, p0),
        },
        None => text_cut_at(bytes, pos, head),
    }
}

} // verus!
