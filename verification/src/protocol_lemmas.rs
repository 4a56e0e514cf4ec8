//! Facts about the wire format: a message reads back from its bytes.

use crate::engine::command::{set_head, tail, value_sep};
use crate::engine::command_lemmas::{
    lemma_occurs_extended, lemma_occurs_split, lemma_occurs_truncated, lemma_string_at_advances,
    lemma_string_at_truncated,
};
use crate::json::{frame_cut, occurs_at, quoted, string_at, text_cut};
use crate::json_lemmas::{
    lemma_byte_differs, lemma_byte_of, lemma_frame_straddles, lemma_other_text_not_cut,
    lemma_pair_straddles, lemma_string_at_quoted, lemma_text_straddles,
    lemma_whole_frame_not_cut, lemma_whole_pair_not_cut,
};
use crate::protocol::{
    encoded_request, encoded_response, framed_string, get_err_head, get_head, get_none,
    get_ok_head, remove_err_head, remove_head, remove_ok, request_at, request_cut, response_at,
    response_cut, set_err_head, set_ok, Query, Reply,
};
use vstd::prelude::*;

verus! {

/// Two texts that differ in one place do not stand at the same place.
pub proof fn lemma_texts_differ(bytes: Seq<u8>, at: int, a: Seq<u8>, b: Seq<u8>, i: int)
    requires
        0 <= i < a.len(),
        i < b.len(),
        a[i] != b[i],
        occurs_at(bytes, at, a),
    ensures
        !occurs_at(bytes, at, b),
{
    if occurs_at(bytes, at, b) {
        assert(bytes.subrange(at, at + a.len())[i] == a[i]);
        assert(bytes.subrange(at, at + b.len())[i] == b[i]);
    }
}

/// Where a head, the literal of a string and the closing braces stand one
/// after the other, the string reads back.
pub proof fn lemma_framed_string(bytes: Seq<u8>, at: int, head: Seq<u8>, s: Seq<char>)
    requires
        occurs_at(bytes, at, head + quoted(s) + tail()),
    ensures
        framed_string(bytes, at, head) == Some((s, at + (head + quoted(s) + tail()).len())),
        occurs_at(bytes, at, head),
        occurs_at(bytes, at, head + quoted(s)),
{
    assert(head + quoted(s) + tail() =~= head + (quoted(s) + tail()));
    lemma_occurs_split(bytes, at, head, quoted(s) + tail());
    lemma_occurs_split(bytes, at + head.len(), quoted(s), tail());
    lemma_occurs_split(bytes, at, head + quoted(s), tail());
    lemma_string_at_quoted(s, bytes, at + head.len());
}

/// Where the bytes of a request stand at `at`, the request reads back from
/// there, and reading ends just past them.
pub proof fn lemma_request_reads_back(q: Query, bytes: Seq<u8>, at: int)
    requires
        occurs_at(bytes, at, encoded_request(q)),
    ensures
        request_at(bytes, at) == Some((q, at + encoded_request(q).len())),
{
    reveal_strlit("{\"Get\":{\"key\":");
    reveal_strlit("{\"Set\":{\"key\":");
    reveal_strlit("{\"Remove\":{\"key\":");
    match q {
        Query::Get { key } => {
            lemma_framed_string(bytes, at, get_head(), key);
        },
        Query::Remove { key } => {
            lemma_framed_string(bytes, at, remove_head(), key);
            lemma_texts_differ(bytes, at, remove_head(), get_head(), 2);
        },
        Query::Put { key, value } => {
            let a = set_head();
            let b = quoted(key);
            let rest = value_sep() + quoted(value) + tail();
            assert(encoded_request(q) =~= a + (b + rest));
            lemma_occurs_split(bytes, at, a, b + rest);
            lemma_occurs_split(bytes, at + a.len(), b, rest);
            lemma_string_at_quoted(key, bytes, at + a.len());
            lemma_framed_string(bytes, at + a.len() + b.len(), value_sep(), value);
            lemma_texts_differ(bytes, at, a, get_head(), 2);
            lemma_texts_differ(bytes, at, a, remove_head(), 2);
        },
    }
}

/// Where the bytes of a response stand at `at`, the response reads back
/// from there, and reading ends just past them.
pub proof fn lemma_response_reads_back(r: Reply, bytes: Seq<u8>, at: int)
    requires
        occurs_at(bytes, at, encoded_response(r)),
    ensures
        response_at(bytes, at) == Some((r, at + encoded_response(r).len())),
{
    reveal_strlit("{\"Get\":{\"Ok\":null}}");
    reveal_strlit("{\"Get\":{\"Ok\":");
    reveal_strlit("{\"Get\":{\"Err\":");
    reveal_strlit("{\"Set\":{\"Ok\":null}}");
    reveal_strlit("{\"Set\":{\"Err\":");
    reveal_strlit("{\"Remove\":{\"Ok\":null}}");
    reveal_strlit("{\"Remove\":{\"Err\":");
    match r {
        Reply::Get(Ok(None)) => {},
        Reply::Get(Ok(Some(value))) => {
            lemma_framed_string(bytes, at, get_ok_head(), value);
            let start = get_ok_head() + quoted(value);
            assert(start[13] == quoted(value)[0]);
            lemma_texts_differ(bytes, at, start, get_none(), 13);
        },
        Reply::Get(Err(text)) => {
            lemma_framed_string(bytes, at, get_err_head(), text);
            lemma_texts_differ(bytes, at, get_err_head(), get_none(), 9);
            lemma_texts_differ(bytes, at, get_err_head(), get_ok_head(), 9);
        },
        Reply::Put(Ok(done)) => {
            assert(done == ());
            lemma_texts_differ(bytes, at, set_ok(), get_none(), 2);
            lemma_texts_differ(bytes, at, set_ok(), get_ok_head(), 2);
            lemma_texts_differ(bytes, at, set_ok(), get_err_head(), 2);
        },
        Reply::Put(Err(text)) => {
            lemma_framed_string(bytes, at, set_err_head(), text);
            lemma_texts_differ(bytes, at, set_err_head(), get_none(), 2);
            lemma_texts_differ(bytes, at, set_err_head(), get_ok_head(), 2);
            lemma_texts_differ(bytes, at, set_err_head(), get_err_head(), 2);
            lemma_texts_differ(bytes, at, set_err_head(), set_ok(), 9);
        },
        Reply::Remove(Ok(done)) => {
            assert(done == ());
            lemma_texts_differ(bytes, at, remove_ok(), get_none(), 2);
            lemma_texts_differ(bytes, at, remove_ok(), get_ok_head(), 2);
            lemma_texts_differ(bytes, at, remove_ok(), get_err_head(), 2);
            lemma_texts_differ(bytes, at, remove_ok(), set_ok(), 2);
            lemma_texts_differ(bytes, at, remove_ok(), set_err_head(), 2);
        },
        Reply::Remove(Err(text)) => {
            lemma_framed_string(bytes, at, remove_err_head(), text);
            lemma_texts_differ(bytes, at, remove_err_head(), get_none(), 2);
            lemma_texts_differ(bytes, at, remove_err_head(), get_ok_head(), 2);
            lemma_texts_differ(bytes, at, remove_err_head(), get_err_head(), 2);
            lemma_texts_differ(bytes, at, remove_err_head(), set_ok(), 2);
            lemma_texts_differ(bytes, at, remove_err_head(), set_err_head(), 2);
            lemma_texts_differ(bytes, at, remove_err_head(), remove_ok(), 12);
        },
    }
}

/// A framed string that reads within the first bytes reads the same from
/// them alone.
pub proof fn lemma_framed_truncated(bytes: Seq<u8>, more: Seq<u8>, pos: int, head: Seq<u8>)
    requires
        framed_string(bytes + more, pos, head) is Some,
        framed_string(bytes + more, pos, head).unwrap().1 <= bytes.len(),
    ensures
        framed_string(bytes, pos, head) == framed_string(bytes + more, pos, head),
{
    reveal_strlit("}}");
    let all = bytes + more;
    let p0 = pos + head.len();
    lemma_string_at_advances(all, p0);
    let p1 = string_at(all, p0).unwrap().1;
    lemma_occurs_truncated(bytes, more, pos, head);
    lemma_string_at_truncated(bytes, more, p0);
    lemma_occurs_truncated(bytes, more, p1, tail());
}

/// A framed string that reads across the end of the first bytes is cut short
/// in them; one that reads is not cut short.
pub proof fn lemma_framed_cut(bytes: Seq<u8>, more: Seq<u8>, pos: int, head: Seq<u8>)
    requires
        0 <= pos <= bytes.len(),
        framed_string(bytes + more, pos, head) is Some,
        framed_string(bytes + more, pos, head).unwrap().1 > bytes.len(),
    ensures
        frame_cut(bytes, pos, head, tail()),
{
    lemma_frame_straddles(bytes, more, pos, head, tail());
}

/// Bytes that are the start of a request that has not come in full hold no
/// request yet.
pub proof fn lemma_request_cut_reads_none(bytes: Seq<u8>, pos: int)
    requires
        request_cut(bytes, pos),
    ensures
        request_at(bytes, pos) is None,
{
    reveal_strlit("{\"Get\":{\"key\":");
    reveal_strlit("{\"Set\":{\"key\":");
    reveal_strlit("{\"Remove\":{\"key\":");
    if request_at(bytes, pos) is Some {
        if occurs_at(bytes, pos, get_head()) {
            lemma_whole_frame_not_cut(bytes, pos, get_head(), tail());
            lemma_other_text_not_cut(bytes, pos, get_head(), remove_head(), 2);
            lemma_other_text_not_cut(bytes, pos, get_head(), set_head(), 2);
        } else if occurs_at(bytes, pos, remove_head()) {
            lemma_whole_frame_not_cut(bytes, pos, remove_head(), tail());
            lemma_other_text_not_cut(bytes, pos, remove_head(), get_head(), 2);
            lemma_other_text_not_cut(bytes, pos, remove_head(), set_head(), 2);
        } else {
            lemma_whole_pair_not_cut(bytes, pos, set_head(), value_sep(), tail());
            lemma_other_text_not_cut(bytes, pos, set_head(), get_head(), 2);
            lemma_other_text_not_cut(bytes, pos, set_head(), remove_head(), 2);
        }
    }
}

/// Bytes that hold no request and are not the start of one that has not
/// come in full will hold none, whatever follows them: they are malformed.
pub proof fn lemma_request_not_cut_never_reads(bytes: Seq<u8>, more: Seq<u8>, pos: int)
    requires
        0 <= pos <= bytes.len(),
        request_at(bytes, pos) is None,
        !request_cut(bytes, pos),
    ensures
        request_at(bytes + more, pos) is None,
{
    reveal_strlit("}}");
    let all = bytes + more;
    if request_at(all, pos) is Some {
        let end = request_at(all, pos).unwrap().1;
        if occurs_at(all, pos, get_head()) {
            if end <= bytes.len() {
                lemma_framed_truncated(bytes, more, pos, get_head());
            } else {
                lemma_framed_cut(bytes, more, pos, get_head());
            }
        } else if occurs_at(all, pos, remove_head()) {
            if end <= bytes.len() {
                lemma_framed_truncated(bytes, more, pos, remove_head());
                if occurs_at(bytes, pos, get_head()) {
                    lemma_occurs_extended(bytes, more, pos, get_head());
                }
            } else {
                lemma_framed_cut(bytes, more, pos, remove_head());
            }
        } else {
            let p0 = pos + set_head().len();
            lemma_string_at_advances(all, p0);
            let p1 = string_at(all, p0).unwrap().1;
            if end <= bytes.len() {
                lemma_framed_truncated(bytes, more, p1, value_sep());
                lemma_string_at_advances(all, p1 + value_sep().len());
                lemma_string_at_truncated(bytes, more, p0);
                lemma_occurs_truncated(bytes, more, pos, set_head());
                if occurs_at(bytes, pos, get_head()) {
                    lemma_occurs_extended(bytes, more, pos, get_head());
                }
                if occurs_at(bytes, pos, remove_head()) {
                    lemma_occurs_extended(bytes, more, pos, remove_head());
                }
            } else {
                lemma_pair_straddles(bytes, more, pos, set_head(), value_sep(), tail());
            }
        }
    }
}

/// Bytes that are the start of a response that has not come in full hold no
/// response yet.
pub proof fn lemma_response_cut_reads_none(bytes: Seq<u8>, pos: int)
    requires
        response_cut(bytes, pos),
    ensures
        response_at(bytes, pos) is None,
{
    reveal_strlit("{\"Get\":{\"Ok\":null}}");
    reveal_strlit("{\"Get\":{\"Ok\":");
    reveal_strlit("{\"Get\":{\"Err\":");
    reveal_strlit("{\"Set\":{\"Ok\":null}}");
    reveal_strlit("{\"Set\":{\"Err\":");
    reveal_strlit("{\"Remove\":{\"Ok\":null}}");
    reveal_strlit("{\"Remove\":{\"Err\":");
    if response_at(bytes, pos) is Some {
        if occurs_at(bytes, pos, get_none()) {
            lemma_byte_of(bytes, pos, get_none(), 2);
            lemma_byte_of(bytes, pos, get_none(), 9);
            lemma_byte_of(bytes, pos, get_none(), 13);
            lemma_no_frame_at(bytes, pos, get_ok_head(), 13);
            lemma_byte_differs(bytes, pos, get_err_head(), 9);
            lemma_byte_differs(bytes, pos, set_ok(), 2);
            lemma_byte_differs(bytes, pos, set_err_head(), 2);
            lemma_byte_differs(bytes, pos, remove_ok(), 2);
            lemma_byte_differs(bytes, pos, remove_err_head(), 2);
        } else if occurs_at(bytes, pos, get_ok_head()) {
            lemma_byte_of(bytes, pos, get_ok_head(), 2);
            lemma_byte_of(bytes, pos, get_ok_head(), 9);
            lemma_whole_frame_not_cut(bytes, pos, get_ok_head(), tail());
            lemma_string_at_advances(bytes, pos + 13);
            lemma_byte_differs(bytes, pos, get_none(), 13);
            lemma_byte_differs(bytes, pos, get_err_head(), 9);
            lemma_byte_differs(bytes, pos, set_ok(), 2);
            lemma_byte_differs(bytes, pos, set_err_head(), 2);
            lemma_byte_differs(bytes, pos, remove_ok(), 2);
            lemma_byte_differs(bytes, pos, remove_err_head(), 2);
        } else if occurs_at(bytes, pos, get_err_head()) {
            lemma_byte_of(bytes, pos, get_err_head(), 2);
            lemma_byte_of(bytes, pos, get_err_head(), 9);
            lemma_whole_frame_not_cut(bytes, pos, get_err_head(), tail());
            lemma_byte_differs(bytes, pos, get_none(), 9);
            lemma_byte_differs(bytes, pos, get_ok_head(), 9);
            lemma_byte_differs(bytes, pos, set_ok(), 2);
            lemma_byte_differs(bytes, pos, set_err_head(), 2);
            lemma_byte_differs(bytes, pos, remove_ok(), 2);
            lemma_byte_differs(bytes, pos, remove_err_head(), 2);
        } else if occurs_at(bytes, pos, set_ok()) {
            lemma_byte_of(bytes, pos, set_ok(), 2);
            lemma_byte_of(bytes, pos, set_ok(), 9);
            lemma_byte_differs(bytes, pos, get_none(), 2);
            lemma_byte_differs(bytes, pos, get_ok_head(), 2);
            lemma_byte_differs(bytes, pos, get_err_head(), 2);
            lemma_byte_differs(bytes, pos, set_err_head(), 9);
            lemma_byte_differs(bytes, pos, remove_ok(), 2);
            lemma_byte_differs(bytes, pos, remove_err_head(), 2);
        } else if occurs_at(bytes, pos, set_err_head()) {
            lemma_byte_of(bytes, pos, set_err_head(), 2);
            lemma_byte_of(bytes, pos, set_err_head(), 9);
            lemma_whole_frame_not_cut(bytes, pos, set_err_head(), tail());
            lemma_byte_differs(bytes, pos, get_none(), 2);
            lemma_byte_differs(bytes, pos, get_ok_head(), 2);
            lemma_byte_differs(bytes, pos, get_err_head(), 2);
            lemma_byte_differs(bytes, pos, set_ok(), 9);
            lemma_byte_differs(bytes, pos, remove_ok(), 2);
            lemma_byte_differs(bytes, pos, remove_err_head(), 2);
        } else if occurs_at(bytes, pos, remove_ok()) {
            lemma_byte_of(bytes, pos, remove_ok(), 2);
            lemma_byte_of(bytes, pos, remove_ok(), 12);
            lemma_byte_differs(bytes, pos, get_none(), 2);
            lemma_byte_differs(bytes, pos, get_ok_head(), 2);
            lemma_byte_differs(bytes, pos, get_err_head(), 2);
            lemma_byte_differs(bytes, pos, set_ok(), 2);
            lemma_byte_differs(bytes, pos, set_err_head(), 2);
            lemma_byte_differs(bytes, pos, remove_err_head(), 12);
        } else {
            lemma_byte_of(bytes, pos, remove_err_head(), 2);
            lemma_byte_of(bytes, pos, remove_err_head(), 12);
            lemma_whole_frame_not_cut(bytes, pos, remove_err_head(), tail());
            lemma_byte_differs(bytes, pos, get_none(), 2);
            lemma_byte_differs(bytes, pos, get_ok_head(), 2);
            lemma_byte_differs(bytes, pos, get_err_head(), 2);
            lemma_byte_differs(bytes, pos, set_ok(), 2);
            lemma_byte_differs(bytes, pos, set_err_head(), 2);
            lemma_byte_differs(bytes, pos, remove_ok(), 12);
        }
    }
}

/// Where the byte behind a head is no quote, no frame with that head is cut
/// short there.
pub proof fn lemma_no_frame_at(bytes: Seq<u8>, pos: int, head: Seq<u8>, n: int)
    requires
        0 <= pos,
        n == head.len(),
        pos + n < bytes.len(),
        bytes[pos + n] != 0x22,
        forall|d: int| 0 <= d < n ==> bytes[pos + d] == #[trigger] head[d],
    ensures
        !frame_cut(bytes, pos, head, tail()),
{
    assert(bytes.subrange(pos, pos + head.len()) =~= head);
}

/// A text that stands when more bytes follow stands in the first bytes or is
/// cut short in them.
pub proof fn lemma_text_before(bytes: Seq<u8>, more: Seq<u8>, pos: int, text: Seq<u8>)
    requires
        0 <= pos <= bytes.len(),
        occurs_at(bytes + more, pos, text),
    ensures
        occurs_at(bytes, pos, text) || text_cut(bytes, pos, text),
{
    if pos + text.len() <= bytes.len() {
        lemma_occurs_truncated(bytes, more, pos, text);
    } else {
        lemma_text_straddles(bytes, more, pos, text);
    }
}

/// A framed string that reads when more bytes follow reads from the first
/// bytes or is cut short in them.
pub proof fn lemma_framed_before(bytes: Seq<u8>, more: Seq<u8>, pos: int, head: Seq<u8>)
    requires
        0 <= pos <= bytes.len(),
        framed_string(bytes + more, pos, head) is Some,
    ensures
        framed_string(bytes, pos, head) is Some || frame_cut(bytes, pos, head, tail()),
{
    if framed_string(bytes + more, pos, head).unwrap().1 <= bytes.len() {
        lemma_framed_truncated(bytes, more, pos, head);
    } else {
        lemma_framed_cut(bytes, more, pos, head);
    }
}

/// Bytes that hold no response and are not the start of one that has not
/// come in full will hold none, whatever follows them: they are malformed.
pub proof fn lemma_response_not_cut_never_reads(bytes: Seq<u8>, more: Seq<u8>, pos: int)
    requires
        0 <= pos <= bytes.len(),
        response_at(bytes, pos) is None,
        !response_cut(bytes, pos),
    ensures
        response_at(bytes + more, pos) is None,
{
    let all = bytes + more;
    if response_at(all, pos) is Some {
        lemma_absent_or_same(bytes, more, pos, get_none());
        lemma_absent_or_same(bytes, more, pos, get_ok_head());
        lemma_absent_or_same(bytes, more, pos, get_err_head());
        lemma_absent_or_same(bytes, more, pos, set_ok());
        lemma_absent_or_same(bytes, more, pos, set_err_head());
        lemma_absent_or_same(bytes, more, pos, remove_ok());
        lemma_absent_or_same(bytes, more, pos, remove_err_head());
        if occurs_at(all, pos, get_none()) {
            lemma_text_before(bytes, more, pos, get_none());
        } else if occurs_at(all, pos, get_ok_head()) {
            lemma_framed_before(bytes, more, pos, get_ok_head());
        } else if occurs_at(all, pos, get_err_head()) {
            lemma_framed_before(bytes, more, pos, get_err_head());
        } else if occurs_at(all, pos, set_ok()) {
            lemma_text_before(bytes, more, pos, set_ok());
        } else if occurs_at(all, pos, set_err_head()) {
            lemma_framed_before(bytes, more, pos, set_err_head());
        } else if occurs_at(all, pos, remove_ok()) {
            lemma_text_before(bytes, more, pos, remove_ok());
        } else {
            lemma_framed_before(bytes, more, pos, remove_err_head());
        }
    }
}

/// A text that stands in the first bytes stands when more bytes follow.
pub proof fn lemma_absent_or_same(bytes: Seq<u8>, more: Seq<u8>, pos: int, text: Seq<u8>)
    ensures
        occurs_at(bytes, pos, text) ==> occurs_at(bytes + more, pos, text),
{
    if occurs_at(bytes, pos, text) {
        lemma_occurs_extended(bytes, more, pos, text);
    }
}

} // verus!
