//! Facts about string literals: a literal ends where the scan says, and no
//! two strings share a literal.

use crate::json::{
    closing, escape_byte, escape_bytes, frame_cut, hex_digit, literal_cut, literal_end,
    occurs_at, pair_cut, quoted, string_at, string_value, text_cut,
};
use vstd::prelude::*;
use vstd::utf8::{encode_utf8, encode_utf8_decode_utf8};

verus! {

/// The escaped form of a byte is 1, 2 or 6 bytes long; it holds no quote
/// that a scan would take for the closing one.
pub proof fn lemma_escape_byte_scans(b: u8, bytes: Seq<u8>, at: int)
    requires
        occurs_at(bytes, at, escape_byte(b)),
    ensures
        closing(bytes, at) == closing(bytes, at + escape_byte(b).len()),
        escape_byte(b).len() >= 1,
{
    let e = escape_byte(b);
    assert forall|i: int| 0 <= i < e.len() implies bytes[at + i] == e[i] by {
        assert(bytes.subrange(at, at + e.len())[i] == e[i]);
    }
    if e.len() == 1 {
        assert(bytes[at] == e[0]);
    } else if e.len() == 2 {
        assert(bytes[at] == e[0]);
        assert(bytes[at + 1] == e[1]);
    } else {
        assert(bytes[at] == e[0]);
        assert(bytes[at + 1] == e[1]);
        assert(bytes[at + 2] == e[2]);
        assert(bytes[at + 3] == e[3]);
        assert(bytes[at + 4] == e[4]);
        assert(bytes[at + 5] == e[5]);
        assert(closing(bytes, at) == closing(bytes, at + 2));
        assert(closing(bytes, at + 2) == closing(bytes, at + 3));
        assert(closing(bytes, at + 3) == closing(bytes, at + 4));
        assert(closing(bytes, at + 4) == closing(bytes, at + 5));
        assert(closing(bytes, at + 5) == closing(bytes, at + 6));
    }
}

/// A scan that starts on escaped bytes runs through them and stops at the
/// quote that follows.
pub proof fn lemma_escaped_scans(raw: Seq<u8>, bytes: Seq<u8>, at: int)
    requires
        occurs_at(bytes, at, escape_bytes(raw) + seq![0x22u8]),
    ensures
        closing(bytes, at) == Some(at + escape_bytes(raw).len() + 1),
    decreases raw.len(),
{
    let text = escape_bytes(raw) + seq![0x22u8];
    assert forall|i: int| 0 <= i < text.len() implies bytes[at + i] == text[i] by {
        assert(bytes.subrange(at, at + text.len())[i] == text[i]);
    }
    if raw.len() == 0 {
        assert(bytes[at] == text[0]);
    } else {
        let e = escape_byte(raw[0]);
        let rest = escape_bytes(raw.drop_first());
        assert(text =~= e + (rest + seq![0x22u8]));
        assert(bytes.subrange(at, at + e.len()) =~= e);
        lemma_escape_byte_scans(raw[0], bytes, at);
        assert(bytes.subrange(at + e.len(), at + e.len() + (rest + seq![0x22u8]).len()) =~= rest
            + seq![0x22u8]) by {
            assert forall|i: int| 0 <= i < rest.len() + 1 implies bytes[at + e.len() + i] == (rest
                + seq![0x22u8])[i] by {
                assert(text[e.len() + i] == (rest + seq![0x22u8])[i]);
            }
        }
        lemma_escaped_scans(raw.drop_first(), bytes, at + e.len());
    }
}

/// Where the literal of `s` stands at `at`, the scan finds its end.
pub proof fn lemma_literal_end_of_quoted(s: Seq<char>, bytes: Seq<u8>, at: int)
    requires
        occurs_at(bytes, at, quoted(s)),
    ensures
        literal_end(bytes, at) == Some(at + quoted(s).len()),
{
    let raw = encode_utf8(s);
    let q = quoted(s);
    let inner = escape_bytes(raw) + seq![0x22u8];
    assert(q =~= seq![0x22u8] + inner);
    assert forall|i: int| 0 <= i < q.len() implies bytes[at + i] == q[i] by {
        assert(bytes.subrange(at, at + q.len())[i] == q[i]);
    }
    assert(bytes[at] == q[0]);
    assert(bytes.subrange(at + 1, at + 1 + inner.len()) =~= inner) by {
        assert forall|i: int| 0 <= i < inner.len() implies bytes[at + 1 + i] == inner[i] by {
            assert(q[1 + i] == inner[i]);
        }
    }
    lemma_escaped_scans(raw, bytes, at + 1);
}

/// A byte can be read back from its escaped form.
proof fn lemma_escape_byte_injective(a: u8, b: u8, x: Seq<u8>)
    requires
        occurs_at(x, 0, escape_byte(a)),
        occurs_at(x, 0, escape_byte(b)),
    ensures
        a == b,
{
    let ea = escape_byte(a);
    let eb = escape_byte(b);
    assert forall|i: int| 0 <= i < ea.len() implies x[i] == ea[i] by {
        assert(x.subrange(0, ea.len() as int)[i] == ea[i]);
    }
    assert forall|i: int| 0 <= i < eb.len() implies x[i] == eb[i] by {
        assert(x.subrange(0, eb.len() as int)[i] == eb[i]);
    }
    assert(x[0] == ea[0] && x[0] == eb[0]);
    if ea.len() > 1 {
        assert(eb.len() > 1);
        assert(x[1] == ea[1] && x[1] == eb[1]);
        if ea.len() > 2 {
            assert(eb.len() > 2);
            assert(x[4] == ea[4] && x[4] == eb[4]);
            assert(x[5] == ea[5] && x[5] == eb[5]);
            assert(hex_digit(a as int / 16) == hex_digit(b as int / 16));
            assert(hex_digit(a as int % 16) == hex_digit(b as int % 16));
            assert(a as int / 16 == b as int / 16);
            assert(a as int % 16 == b as int % 16);
        }
    }
}

/// A run of bytes can be read back from its escaped form.
pub proof fn lemma_escape_bytes_injective(a: Seq<u8>, b: Seq<u8>)
    requires
        escape_bytes(a) == escape_bytes(b),
    ensures
        a == b,
    decreases a.len(),
{
    if a.len() == 0 {
        if b.len() > 0 {
            assert(escape_byte(b[0]).len() >= 1);
            assert(escape_bytes(b).len() >= 1);
        }
        assert(a =~= b);
    } else if b.len() == 0 {
        assert(escape_byte(a[0]).len() >= 1);
        assert(escape_bytes(a).len() >= 1);
    } else {
        let x = escape_bytes(a);
        let ea = escape_byte(a[0]);
        let eb = escape_byte(b[0]);
        assert(x.subrange(0, ea.len() as int) =~= ea);
        assert(x.subrange(0, eb.len() as int) =~= eb);
        lemma_escape_byte_injective(a[0], b[0], x);
        assert(escape_bytes(a.drop_first()) =~= x.subrange(ea.len() as int, x.len() as int));
        assert(escape_bytes(b.drop_first()) =~= x.subrange(eb.len() as int, x.len() as int));
        lemma_escape_bytes_injective(a.drop_first(), b.drop_first());
        assert(a =~= seq![a[0]] + a.drop_first());
        assert(b =~= seq![b[0]] + b.drop_first());
    }
}

/// No two strings share a literal.
pub proof fn lemma_quoted_injective(a: Seq<char>, b: Seq<char>)
    requires
        quoted(a) == quoted(b),
    ensures
        a == b,
{
    let ea = escape_bytes(encode_utf8(a));
    let eb = escape_bytes(encode_utf8(b));
    let q = quoted(a);
    assert(ea =~= q.subrange(1, q.len() - 1));
    assert(eb =~= q.subrange(1, q.len() - 1));
    lemma_escape_bytes_injective(encode_utf8(a), encode_utf8(b));
    encode_utf8_decode_utf8(a);
    encode_utf8_decode_utf8(b);
}

/// The literal of a string stands for that string.
pub proof fn lemma_string_value_of_quoted(s: Seq<char>)
    ensures
        string_value(quoted(s)) == Some(s),
{
    let t = choose|t: Seq<char>| quoted(t) == quoted(s);
    lemma_quoted_injective(t, s);
}

/// Where the literal of `s` stands at `at`, reading a string there gives `s`
/// and ends just past the literal.
pub proof fn lemma_string_at_quoted(s: Seq<char>, bytes: Seq<u8>, at: int)
    requires
        occurs_at(bytes, at, quoted(s)),
    ensures
        string_at(bytes, at) == Some((s, at + quoted(s).len())),
{
    lemma_literal_end_of_quoted(s, bytes, at);
    lemma_string_value_of_quoted(s);
}

/// Where a text stands, no other text that differs from it in one place is
/// cut short, nor stands there.
pub proof fn lemma_other_text_not_cut(bytes: Seq<u8>, pos: int, a: Seq<u8>, b: Seq<u8>, d: int)
    requires
        occurs_at(bytes, pos, a),
        0 <= d < a.len(),
        d < b.len(),
        a[d] != b[d],
    ensures
        !text_cut(bytes, pos, b),
        !occurs_at(bytes, pos, b),
{
    assert(bytes.subrange(pos, pos + a.len())[d] == a[d]);
    if text_cut(bytes, pos, b) {
        assert(bytes.subrange(pos, bytes.len() as int)[d] == bytes[pos + d]);
        assert(b.subrange(0, bytes.len() - pos)[d] == b[d]);
    }
    if occurs_at(bytes, pos, b) {
        assert(bytes.subrange(pos, pos + b.len())[d] == b[d]);
    }
}

/// A text that stands across the end of the first bytes is cut short in
/// them.
pub proof fn lemma_text_straddles(bytes: Seq<u8>, more: Seq<u8>, pos: int, text: Seq<u8>)
    requires
        occurs_at(bytes + more, pos, text),
        0 <= pos <= bytes.len() < pos + text.len(),
    ensures
        text_cut(bytes, pos, text),
{
    let all = bytes + more;
    let n = bytes.len() - pos;
    assert forall|i: int| 0 <= i < n implies bytes[pos + i] == text[i] by {
        assert(all.subrange(pos, pos + text.len())[i] == text[i]);
    }
    assert(bytes.subrange(pos, bytes.len() as int) =~= text.subrange(0, n));
}

/// A scan that finds the closing quote past the end of the first bytes finds
/// none in them.
pub proof fn lemma_closing_straddles(bytes: Seq<u8>, more: Seq<u8>, i: int)
    requires
        0 <= i,
        closing(bytes + more, i) is Some,
        closing(bytes + more, i).unwrap() > bytes.len(),
    ensures
        closing(bytes, i) is None,
    decreases bytes.len() - i,
{
    let all = bytes + more;
    if i < bytes.len() {
        assert(all[i] == bytes[i]);
        if bytes[i] == 0x22 {
        } else if bytes[i] == 0x5c {
            if i + 1 < bytes.len() {
                lemma_closing_straddles(bytes, more, i + 2);
            }
        } else {
            lemma_closing_straddles(bytes, more, i + 1);
        }
    }
}

/// A literal that ends past the end of the first bytes is cut short in them.
pub proof fn lemma_literal_straddles(bytes: Seq<u8>, more: Seq<u8>, start: int)
    requires
        0 <= start <= bytes.len(),
        literal_end(bytes + more, start) is Some,
        literal_end(bytes + more, start).unwrap() > bytes.len(),
    ensures
        literal_cut(bytes, start),
{
    if start < bytes.len() {
        assert((bytes + more)[start] == bytes[start]);
        lemma_closing_straddles(bytes, more, start + 1);
    }
}

/// A literal that ends within the first bytes ends at the same place in
/// them alone.
pub proof fn lemma_literal_truncated(bytes: Seq<u8>, more: Seq<u8>, start: int)
    requires
        0 <= start,
        literal_end(bytes + more, start) is Some,
        literal_end(bytes + more, start).unwrap() <= bytes.len(),
    ensures
        literal_end(bytes, start) == literal_end(bytes + more, start),
        start < literal_end(bytes + more, start).unwrap(),
    decreases bytes.len() - start,
{
    let all = bytes + more;
    lemma_closing_advances(all, start + 1);
    assert(all[start] == bytes[start]);
    lemma_closing_truncated(bytes, more, start + 1);
}

/// A scan ends past the place where it started.
pub proof fn lemma_closing_advances(bytes: Seq<u8>, i: int)
    requires
        closing(bytes, i) is Some,
    ensures
        i < closing(bytes, i).unwrap() <= bytes.len(),
    decreases bytes.len() - i,
{
    if bytes[i] == 0x22 {
    } else if bytes[i] == 0x5c {
        lemma_closing_advances(bytes, i + 2);
    } else {
        lemma_closing_advances(bytes, i + 1);
    }
}

/// A scan that finds the closing quote within the first bytes finds it in
/// them alone.
pub proof fn lemma_closing_truncated(bytes: Seq<u8>, more: Seq<u8>, i: int)
    requires
        0 <= i,
        closing(bytes + more, i) is Some,
        closing(bytes + more, i).unwrap() <= bytes.len(),
    ensures
        closing(bytes, i) == closing(bytes + more, i),
    decreases bytes.len() - i,
{
    let all = bytes + more;
    lemma_closing_advances(all, i);
    assert(all[i] == bytes[i]);
    if bytes[i] == 0x22 {
    } else if bytes[i] == 0x5c {
        lemma_closing_advances(all, i + 2);
        lemma_closing_truncated(bytes, more, i + 2);
    } else {
        lemma_closing_truncated(bytes, more, i + 1);
    }
}

/// A frame that stands is not cut short: where `head`, a closed literal and
/// `last` stand one after the other, the bytes do not end within them.
pub proof fn lemma_whole_frame_not_cut(bytes: Seq<u8>, pos: int, head: Seq<u8>, last: Seq<u8>)
    requires
        occurs_at(bytes, pos, head),
        literal_end(bytes, pos + head.len()) is Some,
        occurs_at(bytes, literal_end(bytes, pos + head.len()).unwrap(), last),
    ensures
        !frame_cut(bytes, pos, head, last),
{
}

/// A frame that stands across the end of the first bytes is cut short in
/// them.
pub proof fn lemma_frame_straddles(
    bytes: Seq<u8>,
    more: Seq<u8>,
    pos: int,
    head: Seq<u8>,
    last: Seq<u8>,
)
    requires
        0 <= pos <= bytes.len(),
        occurs_at(bytes + more, pos, head),
        literal_end(bytes + more, pos + head.len()) is Some,
        occurs_at(bytes + more, literal_end(bytes + more, pos + head.len()).unwrap(), last),
        literal_end(bytes + more, pos + head.len()).unwrap() + last.len() > bytes.len(),
    ensures
        frame_cut(bytes, pos, head, last),
{
    let all = bytes + more;
    let p0 = pos + head.len();
    let end = literal_end(all, p0).unwrap();
    if p0 > bytes.len() {
        lemma_text_straddles(bytes, more, pos, head);
        assert(!occurs_at(bytes, pos, head));
    } else {
        assert(all.subrange(pos, pos + head.len()) =~= bytes.subrange(pos, pos + head.len()));
        if end > bytes.len() {
            lemma_literal_straddles(bytes, more, p0);
        } else {
            lemma_literal_truncated(bytes, more, p0);
            lemma_text_straddles(bytes, more, end, last);
        }
    }
}

/// A frame of two literals that stands is not cut short.
pub proof fn lemma_whole_pair_not_cut(
    bytes: Seq<u8>,
    pos: int,
    head: Seq<u8>,
    middle: Seq<u8>,
    last: Seq<u8>,
)
    requires
        occurs_at(bytes, pos, head),
        literal_end(bytes, pos + head.len()) is Some,
        occurs_at(bytes, literal_end(bytes, pos + head.len()).unwrap(), middle),
        literal_end(
            bytes,
            literal_end(bytes, pos + head.len()).unwrap() + middle.len(),
        ) is Some,
        occurs_at(
            bytes,
            literal_end(
                bytes,
                literal_end(bytes, pos + head.len()).unwrap() + middle.len(),
            ).unwrap(),
            last,
        ),
    ensures
        !pair_cut(bytes, pos, head, middle, last),
{
}

/// A frame of two literals that stands across the end of the first bytes is
/// cut short in them.
pub proof fn lemma_pair_straddles(
    bytes: Seq<u8>,
    more: Seq<u8>,
    pos: int,
    head: Seq<u8>,
    middle: Seq<u8>,
    last: Seq<u8>,
)
    requires
        0 <= pos <= bytes.len(),
        occurs_at(bytes + more, pos, head),
        literal_end(bytes + more, pos + head.len()) is Some,
        occurs_at(bytes + more, literal_end(bytes + more, pos + head.len()).unwrap(), middle),
        literal_end(
            bytes + more,
            literal_end(bytes + more, pos + head.len()).unwrap() + middle.len(),
        ) is Some,
        occurs_at(
            bytes + more,
            literal_end(
                bytes + more,
                literal_end(bytes + more, pos + head.len()).unwrap() + middle.len(),
            ).unwrap(),
            last,
        ),
        literal_end(
            bytes + more,
            literal_end(bytes + more, pos + head.len()).unwrap() + middle.len(),
        ).unwrap() + last.len() > bytes.len(),
    ensures
        pair_cut(bytes, pos, head, middle, last),
{
    let all = bytes + more;
    let p0 = pos + head.len();
    let p1 = literal_end(all, p0).unwrap();
    if p0 > bytes.len() {
        lemma_text_straddles(bytes, more, pos, head);
    } else {
        assert(all.subrange(pos, pos + head.len()) =~= bytes.subrange(pos, pos + head.len()));
        if p1 > bytes.len() {
            lemma_literal_straddles(bytes, more, p0);
        } else {
            lemma_literal_truncated(bytes, more, p0);
            lemma_frame_straddles(bytes, more, p1, middle, last);
        }
    }
}

/// A text neither stands nor is cut short where one of the bytes differs
/// from it.
pub proof fn lemma_byte_differs(bytes: Seq<u8>, pos: int, text: Seq<u8>, d: int)
    requires
        0 <= pos,
        0 <= d < text.len(),
        pos + d < bytes.len(),
        bytes[pos + d] != text[d],
    ensures
        !text_cut(bytes, pos, text),
        !occurs_at(bytes, pos, text),
{
    if text_cut(bytes, pos, text) {
        assert(bytes.subrange(pos, bytes.len() as int)[d] == bytes[pos + d]);
        assert(text.subrange(0, bytes.len() - pos)[d] == text[d]);
    }
    if occurs_at(bytes, pos, text) {
        assert(bytes.subrange(pos, pos + text.len())[d] == text[d]);
    }
}

/// Where a text stands, each of its bytes stands at its place.
pub proof fn lemma_byte_of(bytes: Seq<u8>, pos: int, text: Seq<u8>, d: int)
    requires
        occurs_at(bytes, pos, text),
        0 <= d < text.len(),
    ensures
        pos + d < bytes.len(),
        bytes[pos + d] == text[d],
{
    assert(bytes.subrange(pos, pos + text.len())[d] == text[d]);
}

} // verus!
