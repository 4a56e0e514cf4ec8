//! Facts about the record format: a record reads back from its bytes, and
//! what follows a record does not change how it reads.

use crate::engine::command::{
    cut_short, decoded, decoded_at, encoded, rm_head, set_head, tail, value_sep, Record,
};
use crate::json::{closing, literal_end, occurs_at, quoted, string_at};
use crate::json_lemmas::{
    lemma_closing_advances, lemma_closing_truncated, lemma_frame_straddles,
    lemma_other_text_not_cut, lemma_pair_straddles, lemma_string_at_quoted,
    lemma_whole_frame_not_cut, lemma_whole_pair_not_cut,
};
use vstd::prelude::*;

verus! {

/// Where a text stands, so does each of its two parts.
pub proof fn lemma_occurs_split(bytes: Seq<u8>, at: int, a: Seq<u8>, b: Seq<u8>)
    requires
        occurs_at(bytes, at, a + b),
    ensures
        occurs_at(bytes, at, a),
        occurs_at(bytes, at + a.len(), b),
{
    let ab = a + b;
    assert forall|i: int| 0 <= i < ab.len() implies bytes[at + i] == ab[i] by {
        assert(bytes.subrange(at, at + ab.len())[i] == ab[i]);
    }
    assert(bytes.subrange(at, at + a.len()) =~= a) by {
        assert forall|i: int| 0 <= i < a.len() implies bytes[at + i] == a[i] by {
            assert(ab[i] == a[i]);
        }
    }
    assert(bytes.subrange(at + a.len(), at + a.len() + b.len()) =~= b) by {
        assert forall|i: int| 0 <= i < b.len() implies bytes[at + a.len() + i] == b[i] by {
            assert(ab[a.len() + i] == b[i]);
        }
    }
}

/// The two record heads differ, so at most one of them stands at a place.
pub proof fn lemma_heads_differ(bytes: Seq<u8>, at: int)
    ensures
        !(occurs_at(bytes, at, set_head()) && occurs_at(bytes, at, rm_head())),
{
    reveal_strlit("{\"Set\":{\"key\":");
    reveal_strlit("{\"Rm\":{\"key\":");
    if occurs_at(bytes, at, set_head()) && occurs_at(bytes, at, rm_head()) {
        assert(bytes.subrange(at, at + set_head().len())[2] == set_head()[2]);
        assert(bytes.subrange(at, at + rm_head().len())[2] == rm_head()[2]);
    }
}

/// Where the bytes of a record stand at `at`, the record reads back from
/// there, and reading ends just past them.
pub proof fn lemma_decoded_at_encoded(rec: Record, bytes: Seq<u8>, at: int)
    requires
        occurs_at(bytes, at, encoded(rec)),
    ensures
        decoded_at(bytes, at) == Some((rec, at + encoded(rec).len())),
{
    match rec {
        Record::Put { key, value } => {
            let a = set_head();
            let b = quoted(key);
            let c = value_sep();
            let d = quoted(value);
            let e = tail();
            assert(encoded(rec) =~= a + (b + (c + (d + e))));
            lemma_occurs_split(bytes, at, a, b + (c + (d + e)));
            lemma_occurs_split(bytes, at + a.len(), b, c + (d + e));
            lemma_occurs_split(bytes, at + a.len() + b.len(), c, d + e);
            lemma_occurs_split(bytes, at + a.len() + b.len() + c.len(), d, e);
            lemma_string_at_quoted(key, bytes, at + a.len());
            lemma_string_at_quoted(value, bytes, at + a.len() + b.len() + c.len());
        },
        Record::Rm { key } => {
            let a = rm_head();
            let b = quoted(key);
            let e = tail();
            assert(encoded(rec) =~= a + (b + e));
            lemma_occurs_split(bytes, at, a, b + e);
            lemma_occurs_split(bytes, at + a.len(), b, e);
            lemma_string_at_quoted(key, bytes, at + a.len());
            lemma_heads_differ(bytes, at);
        },
    }
}

/// A record reads back from its own bytes.
pub proof fn lemma_decoded_encoded(rec: Record)
    ensures
        decoded(encoded(rec)) == Some(rec),
{
    let bytes = encoded(rec);
    assert(bytes.subrange(0, bytes.len() as int) =~= bytes);
    lemma_decoded_at_encoded(rec, bytes, 0);
}

/// A text that stands in `bytes` stands at the same place when more bytes
/// follow.
pub proof fn lemma_occurs_extended(bytes: Seq<u8>, more: Seq<u8>, at: int, text: Seq<u8>)
    requires
        occurs_at(bytes, at, text),
    ensures
        occurs_at(bytes + more, at, text),
{
    assert((bytes + more).subrange(at, at + text.len()) =~= bytes.subrange(at, at + text.len()));
}

/// A scan that finds a closing quote finds the same one when more bytes
/// follow.
pub proof fn lemma_closing_extended(bytes: Seq<u8>, more: Seq<u8>, i: int)
    requires
        closing(bytes, i) is Some,
    ensures
        closing(bytes + more, i) == closing(bytes, i),
        closing(bytes, i).unwrap() <= bytes.len(),
    decreases bytes.len() - i,
{
    let all = bytes + more;
    assert(all[i] == bytes[i]);
    if bytes[i] == 0x22 {
    } else if bytes[i] == 0x5c {
        lemma_closing_extended(bytes, more, i + 2);
    } else {
        lemma_closing_extended(bytes, more, i + 1);
    }
}

/// A string that reads from `bytes` reads the same when more bytes follow.
pub proof fn lemma_string_at_extended(bytes: Seq<u8>, more: Seq<u8>, at: int)
    requires
        string_at(bytes, at) is Some,
    ensures
        string_at(bytes + more, at) == string_at(bytes, at),
        string_at(bytes, at).unwrap().1 <= bytes.len(),
{
    let all = bytes + more;
    assert(literal_end(bytes, at) is Some);
    assert(0 <= at < bytes.len() && bytes[at] == 0x22);
    assert(all[at] == bytes[at]);
    assert(closing(bytes, at + 1) is Some);
    lemma_closing_extended(bytes, more, at + 1);
    let end = literal_end(bytes, at).unwrap();
    assert(at < end <= bytes.len()) by {
        lemma_closing_advances(bytes, at + 1);
    }
    assert(all.subrange(at, end) =~= bytes.subrange(at, end));
}

/// A record that reads from `bytes` reads the same when more bytes follow.
pub proof fn lemma_decoded_at_extended(bytes: Seq<u8>, more: Seq<u8>, at: int)
    requires
        decoded_at(bytes, at) is Some,
    ensures
        decoded_at(bytes + more, at) == decoded_at(bytes, at),
        decoded_at(bytes, at).unwrap().1 <= bytes.len(),
{
    let all = bytes + more;
    lemma_heads_differ(all, at);
    if occurs_at(bytes, at, set_head()) {
        lemma_occurs_extended(bytes, more, at, set_head());
        let p0 = at + set_head().len();
        lemma_string_at_extended(bytes, more, p0);
        let p1 = string_at(bytes, p0).unwrap().1;
        lemma_occurs_extended(bytes, more, p1, value_sep());
        let q1 = p1 + value_sep().len();
        lemma_string_at_extended(bytes, more, q1);
        let p2 = string_at(bytes, q1).unwrap().1;
        lemma_occurs_extended(bytes, more, p2, tail());
    } else {
        lemma_occurs_extended(bytes, more, at, rm_head());
        let p0 = at + rm_head().len();
        lemma_string_at_extended(bytes, more, p0);
        let p1 = string_at(bytes, p0).unwrap().1;
        lemma_occurs_extended(bytes, more, p1, tail());
    }
}

/// A text stands in `bytes` at `at` exactly where it stands at the place
/// that bytes put in front move it to.
pub proof fn lemma_occurs_shifted(front: Seq<u8>, bytes: Seq<u8>, at: int, text: Seq<u8>)
    requires
        occurs_at(bytes, at, text),
    ensures
        occurs_at(front + bytes, front.len() + at, text),
{
    assert((front + bytes).subrange(front.len() + at, front.len() + at + text.len())
        =~= bytes.subrange(at, at + text.len()));
}

/// A scan finds the closing quote at the place that bytes put in front move
/// it to.
pub proof fn lemma_closing_shifted(front: Seq<u8>, bytes: Seq<u8>, i: int)
    requires
        closing(bytes, i) is Some,
    ensures
        closing(front + bytes, front.len() + i) == Some(front.len() + closing(bytes, i).unwrap()),
    decreases bytes.len() - i,
{
    let all = front + bytes;
    assert(all[front.len() + i] == bytes[i]);
    if bytes[i] == 0x22 {
    } else if bytes[i] == 0x5c {
        lemma_closing_shifted(front, bytes, i + 2);
    } else {
        lemma_closing_shifted(front, bytes, i + 1);
    }
}

/// A string reads the same at the place that bytes put in front move it to.
pub proof fn lemma_string_at_shifted(front: Seq<u8>, bytes: Seq<u8>, at: int)
    requires
        string_at(bytes, at) is Some,
    ensures
        string_at(front + bytes, front.len() + at) == Some(
            (string_at(bytes, at).unwrap().0, front.len() + string_at(bytes, at).unwrap().1),
        ),
{
    let all = front + bytes;
    assert(literal_end(bytes, at) is Some);
    assert(0 <= at < bytes.len() && bytes[at] == 0x22);
    assert(all[front.len() + at] == bytes[at]);
    assert(closing(bytes, at + 1) is Some);
    lemma_closing_shifted(front, bytes, at + 1);
    lemma_closing_advances(bytes, at + 1);
    let end = literal_end(bytes, at).unwrap();
    assert(all.subrange(front.len() + at, front.len() + end) =~= bytes.subrange(at, end));
}

/// A record reads the same at the place that bytes put in front move it to.
pub proof fn lemma_decoded_at_shifted(front: Seq<u8>, bytes: Seq<u8>, at: int)
    requires
        decoded_at(bytes, at) is Some,
    ensures
        decoded_at(front + bytes, front.len() + at) == Some(
            (decoded_at(bytes, at).unwrap().0, front.len() + decoded_at(bytes, at).unwrap().1),
        ),
{
    let all = front + bytes;
    let n = front.len() as int;
    lemma_heads_differ(all, n + at);
    if occurs_at(bytes, at, set_head()) {
        lemma_occurs_shifted(front, bytes, at, set_head());
        let p0 = at + set_head().len();
        lemma_string_at_shifted(front, bytes, p0);
        let p1 = string_at(bytes, p0).unwrap().1;
        lemma_occurs_shifted(front, bytes, p1, value_sep());
        let q1 = p1 + value_sep().len();
        lemma_string_at_shifted(front, bytes, q1);
        let p2 = string_at(bytes, q1).unwrap().1;
        lemma_occurs_shifted(front, bytes, p2, tail());
    } else {
        lemma_occurs_shifted(front, bytes, at, rm_head());
        let p0 = at + rm_head().len();
        lemma_string_at_shifted(front, bytes, p0);
        let p1 = string_at(bytes, p0).unwrap().1;
        lemma_occurs_shifted(front, bytes, p1, tail());
    }
}

/// Reading a record takes at least one byte and stays within the bytes.
pub proof fn lemma_decoded_at_advances(bytes: Seq<u8>, at: int)
    requires
        decoded_at(bytes, at) is Some,
    ensures
        0 <= at < decoded_at(bytes, at).unwrap().1 <= bytes.len(),
{
    reveal_strlit("}}");
    assert(tail().len() == 2);
    if occurs_at(bytes, at, set_head()) {
        let p0 = at + set_head().len();
        lemma_string_at_advances(bytes, p0);
        let p1 = string_at(bytes, p0).unwrap().1;
        let q1 = p1 + value_sep().len();
        lemma_string_at_advances(bytes, q1);
    } else {
        let p0 = at + rm_head().len();
        lemma_string_at_advances(bytes, p0);
    }
}

/// Reading a string ends past the place where it started.
pub proof fn lemma_string_at_advances(bytes: Seq<u8>, at: int)
    requires
        string_at(bytes, at) is Some,
    ensures
        at < string_at(bytes, at).unwrap().1 <= bytes.len(),
{
    assert(literal_end(bytes, at) is Some);
    assert(closing(bytes, at + 1) is Some);
    lemma_closing_advances(bytes, at + 1);
}

/// A scan that finds the closing quote behind bytes put in front finds it
/// without them.
pub proof fn lemma_closing_unshifted(front: Seq<u8>, bytes: Seq<u8>, i: int)
    requires
        0 <= i,
        closing(front + bytes, front.len() + i) is Some,
    ensures
        closing(bytes, i) == Some(closing(front + bytes, front.len() + i).unwrap() - front.len()),
    decreases bytes.len() - i,
{
    let all = front + bytes;
    assert(all[front.len() + i] == bytes[i]);
    if bytes[i] == 0x22 {
    } else if bytes[i] == 0x5c {
        lemma_closing_unshifted(front, bytes, i + 2);
    } else {
        lemma_closing_unshifted(front, bytes, i + 1);
    }
}

/// A text that stands behind bytes put in front stands there without them.
pub proof fn lemma_occurs_unshifted(front: Seq<u8>, bytes: Seq<u8>, at: int, text: Seq<u8>)
    requires
        0 <= at,
        occurs_at(front + bytes, front.len() + at, text),
    ensures
        occurs_at(bytes, at, text),
{
    assert((front + bytes).subrange(front.len() + at, front.len() + at + text.len())
        =~= bytes.subrange(at, at + text.len()));
}

/// A string that reads behind bytes put in front reads the same without
/// them.
pub proof fn lemma_string_at_unshifted(front: Seq<u8>, bytes: Seq<u8>, at: int)
    requires
        0 <= at,
        string_at(front + bytes, front.len() + at) is Some,
    ensures
        string_at(bytes, at) == Some(
            (
                string_at(front + bytes, front.len() + at).unwrap().0,
                string_at(front + bytes, front.len() + at).unwrap().1 - front.len(),
            ),
        ),
{
    let all = front + bytes;
    let n = front.len() as int;
    assert(literal_end(all, n + at) is Some);
    assert(all[n + at] == bytes[at]);
    assert(closing(all, n + at + 1) is Some);
    lemma_closing_unshifted(front, bytes, at + 1);
    lemma_closing_advances(all, n + at + 1);
    let end = literal_end(all, n + at).unwrap();
    assert(all.subrange(n + at, end) =~= bytes.subrange(at, end - n));
}

/// A record that reads behind bytes put in front reads the same without
/// them.
pub proof fn lemma_decoded_at_unshifted(front: Seq<u8>, bytes: Seq<u8>, at: int)
    requires
        0 <= at,
        decoded_at(front + bytes, front.len() + at) is Some,
    ensures
        decoded_at(bytes, at) == Some(
            (
                decoded_at(front + bytes, front.len() + at).unwrap().0,
                decoded_at(front + bytes, front.len() + at).unwrap().1 - front.len(),
            ),
        ),
{
    let all = front + bytes;
    let n = front.len() as int;
    lemma_heads_differ(bytes, at);
    if occurs_at(all, n + at, set_head()) {
        lemma_occurs_unshifted(front, bytes, at, set_head());
        let p0 = at + set_head().len();
        lemma_string_at_unshifted(front, bytes, p0);
        lemma_string_at_advances(all, n + p0);
        let p1 = string_at(all, n + p0).unwrap().1 - n;
        lemma_occurs_unshifted(front, bytes, p1, value_sep());
        let q1 = p1 + value_sep().len();
        lemma_string_at_unshifted(front, bytes, q1);
        lemma_string_at_advances(all, n + q1);
        let p2 = string_at(all, n + q1).unwrap().1 - n;
        lemma_occurs_unshifted(front, bytes, p2, tail());
    } else {
        lemma_occurs_unshifted(front, bytes, at, rm_head());
        let p0 = at + rm_head().len();
        lemma_string_at_unshifted(front, bytes, p0);
        lemma_string_at_advances(all, n + p0);
        let p1 = string_at(all, n + p0).unwrap().1 - n;
        lemma_occurs_unshifted(front, bytes, p1, tail());
    }
}

/// A text that stands within the first bytes stands in them alone.
pub proof fn lemma_occurs_truncated(bytes: Seq<u8>, more: Seq<u8>, at: int, text: Seq<u8>)
    requires
        occurs_at(bytes + more, at, text),
        at + text.len() <= bytes.len(),
    ensures
        occurs_at(bytes, at, text),
{
    assert((bytes + more).subrange(at, at + text.len()) =~= bytes.subrange(at, at + text.len()));
}

/// A string that reads within the first bytes reads the same from them
/// alone.
pub proof fn lemma_string_at_truncated(bytes: Seq<u8>, more: Seq<u8>, at: int)
    requires
        string_at(bytes + more, at) is Some,
        string_at(bytes + more, at).unwrap().1 <= bytes.len(),
    ensures
        string_at(bytes, at) == string_at(bytes + more, at),
{
    let all = bytes + more;
    assert(literal_end(all, at) is Some);
    assert(closing(all, at + 1) is Some);
    lemma_closing_advances(all, at + 1);
    assert(all[at] == bytes[at]);
    lemma_closing_truncated(bytes, more, at + 1);
    let end = literal_end(all, at).unwrap();
    assert(all.subrange(at, end) =~= bytes.subrange(at, end));
}

/// A record that reads within the first bytes reads the same from them
/// alone.
pub proof fn lemma_decoded_at_truncated(bytes: Seq<u8>, more: Seq<u8>, at: int)
    requires
        decoded_at(bytes + more, at) is Some,
        decoded_at(bytes + more, at).unwrap().1 <= bytes.len(),
    ensures
        decoded_at(bytes, at) == decoded_at(bytes + more, at),
{
    reveal_strlit("}}");
    let all = bytes + more;
    lemma_heads_differ(bytes, at);
    let e = tail();
    if occurs_at(all, at, set_head()) {
        let p0 = at + set_head().len();
        lemma_string_at_advances(all, p0);
        let p1 = string_at(all, p0).unwrap().1;
        let q1 = p1 + value_sep().len();
        lemma_string_at_advances(all, q1);
        let p2 = string_at(all, q1).unwrap().1;
        assert(decoded_at(all, at).unwrap().1 == p2 + e.len());
        lemma_occurs_truncated(bytes, more, at, set_head());
        lemma_string_at_truncated(bytes, more, p0);
        lemma_occurs_truncated(bytes, more, p1, value_sep());
        lemma_string_at_truncated(bytes, more, q1);
        lemma_occurs_truncated(bytes, more, p2, e);
    } else {
        let p0 = at + rm_head().len();
        lemma_string_at_advances(all, p0);
        let p1 = string_at(all, p0).unwrap().1;
        assert(decoded_at(all, at).unwrap().1 == p1 + e.len());
        lemma_occurs_truncated(bytes, more, at, rm_head());
        lemma_string_at_truncated(bytes, more, p0);
        lemma_occurs_truncated(bytes, more, p1, e);
    }
}

/// The bytes of a record that reads at `at` hold that record, taken by
/// themselves.
pub proof fn lemma_decoded_alone(bytes: Seq<u8>, at: int)
    requires
        decoded_at(bytes, at) is Some,
    ensures
        0 <= at < decoded_at(bytes, at).unwrap().1 <= bytes.len(),
        decoded(bytes.subrange(at, decoded_at(bytes, at).unwrap().1)) == Some(
            decoded_at(bytes, at).unwrap().0,
        ),
{
    lemma_decoded_at_advances(bytes, at);
    let end = decoded_at(bytes, at).unwrap().1;
    let front = bytes.subrange(0, at);
    let rest = bytes.subrange(at, bytes.len() as int);
    let mid = bytes.subrange(at, end);
    let back = bytes.subrange(end, bytes.len() as int);
    assert(bytes =~= front + rest);
    assert(rest =~= mid + back);
    lemma_decoded_at_unshifted(front, rest, 0);
    lemma_decoded_at_truncated(mid, back, 0);
}

/// Bytes that are the start of a record that has not come in full hold no
/// record yet.
pub proof fn lemma_cut_short_reads_none(bytes: Seq<u8>, pos: int)
    requires
        cut_short(bytes, pos),
    ensures
        decoded_at(bytes, pos) is None,
{
    reveal_strlit("{\"Set\":{\"key\":");
    reveal_strlit("{\"Rm\":{\"key\":");
    if decoded_at(bytes, pos) is Some {
        if occurs_at(bytes, pos, set_head()) {
            lemma_whole_pair_not_cut(bytes, pos, set_head(), value_sep(), tail());
            lemma_other_text_not_cut(bytes, pos, set_head(), rm_head(), 2);
        } else {
            lemma_whole_frame_not_cut(bytes, pos, rm_head(), tail());
            lemma_other_text_not_cut(bytes, pos, rm_head(), set_head(), 2);
        }
    }
}

/// Bytes that hold no record and are not the start of one that has not come
/// in full will hold none, whatever follows them: they are malformed.
pub proof fn lemma_not_cut_never_reads(bytes: Seq<u8>, more: Seq<u8>, pos: int)
    requires
        0 <= pos <= bytes.len(),
        decoded_at(bytes, pos) is None,
        !cut_short(bytes, pos),
    ensures
        decoded_at(bytes + more, pos) is None,
{
    let all = bytes + more;
    if decoded_at(all, pos) is Some {
        let end = decoded_at(all, pos).unwrap().1;
        if end <= bytes.len() {
            lemma_decoded_at_truncated(bytes, more, pos);
        } else if occurs_at(all, pos, set_head()) {
            lemma_pair_straddles(bytes, more, pos, set_head(), value_sep(), tail());
        } else {
            lemma_frame_straddles(bytes, more, pos, rm_head(), tail());
        }
    }
}

} // verus!
