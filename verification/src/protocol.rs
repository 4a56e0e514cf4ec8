//! The messages between client and server and their format on the wire.
//!
//! A message is one JSON object; messages abut in a stream with nothing
//! between them:
//!
//! ```text
//! {"Get":{"key":"<k>"}}                 {"Get":{"Ok":null}}  {"Get":{"Ok":"<v>"}}  {"Get":{"Err":"<e>"}}
//! {"Set":{"key":"<k>","value":"<v>"}}   {"Set":{"Ok":null}}  {"Set":{"Err":"<e>"}}
//! {"Remove":{"key":"<k>"}}              {"Remove":{"Ok":null}}  {"Remove":{"Err":"<e>"}}
//! ```

use crate::engine::command::{set_head, tail, value_sep};
use crate::json::{
    append_quoted, append_text, ascii, frame_cut, frame_cut_at, malformed, occurs_at, pair_cut,
    pair_cut_at, quoted, read_string, skip_text, string_at, text_cut, text_cut_at,
};
use crate::kvs_error::KvsError;
use vstd::prelude::*;
use vstd::string::*;

verus! {

/// What a client asks of the server. `Put` is the request that the wire
/// spells `Set`.
#[derive(Debug, Clone, PartialEq, Eq)]
pub enum Request {
    Get { key: String },
    Put { key: String, value: String },
    Remove { key: String },
}

/// What the server answers: for each kind of request its result, or the text
/// of the error. `Put` is the response that the wire spells `Set`.
#[derive(Debug, PartialEq, Eq)]
pub enum Response {
    Get(Result<Option<String>, String>),
    Put(Result<(), String>),
    Remove(Result<(), String>),
}

/// A request as a mathematical value.
pub enum Query {
    Get { key: Seq<char> },
    Put { key: Seq<char>, value: Seq<char> },
    Remove { key: Seq<char> },
}

/// A response as a mathematical value.
pub enum Reply {
    Get(Result<Option<Seq<char>>, Seq<char>>),
    Put(Result<(), Seq<char>>),
    Remove(Result<(), Seq<char>>),
}

impl View for Request {
    type V = Query;

    open spec fn view(&self) -> Query {
        match self {
            Request::Get { key } => Query::Get { key: key@ },
            Request::Put { key, value } => Query::Put { key: key@, value: value@ },
            Request::Remove { key } => Query::Remove { key: key@ },
        }
    }
}

/// The outcome of a request without a value, as a mathematical value.
pub open spec fn done_view(r: Result<(), String>) -> Result<(), Seq<char>> {
    match r {
        Ok(_) => Ok(()),
        Err(text) => Err(text@),
    }
}

impl View for Response {
    type V = Reply;

    open spec fn view(&self) -> Reply {
        match self {
            Response::Get(Ok(Some(value))) => Reply::Get(Ok(Some(value@))),
            Response::Get(Ok(None)) => Reply::Get(Ok(None)),
            Response::Get(Err(text)) => Reply::Get(Err(text@)),
            Response::Put(r) => Reply::Put(done_view(*r)),
            Response::Remove(r) => Reply::Remove(done_view(*r)),
        }
    }
}

/// What opens a `Get` request, up to its key.
pub open spec fn get_head() -> Seq<u8> {
    ascii("{\"Get\":{\"key\":"@)
}

/// What opens a `Remove` request, up to its key.
pub open spec fn remove_head() -> Seq<u8> {
    ascii("{\"Remove\":{\"key\":"@)
}

/// The response to a `Get` request for a key without a value.
pub open spec fn get_none() -> Seq<u8> {
    ascii("{\"Get\":{\"Ok\":null}}"@)
}

/// What opens the response to a `Get` request, up to the value.
pub open spec fn get_ok_head() -> Seq<u8> {
    ascii("{\"Get\":{\"Ok\":"@)
}

/// What opens the response to a `Get` request that failed, up to the error's text.
pub open spec fn get_err_head() -> Seq<u8> {
    ascii("{\"Get\":{\"Err\":"@)
}

/// The response to a `Set` request that was carried out.
pub open spec fn set_ok() -> Seq<u8> {
    ascii("{\"Set\":{\"Ok\":null}}"@)
}

/// What opens the response to a `Set` request that failed, up to the error's text.
pub open spec fn set_err_head() -> Seq<u8> {
    ascii("{\"Set\":{\"Err\":"@)
}

/// The response to a `Remove` request that was carried out.
pub open spec fn remove_ok() -> Seq<u8> {
    ascii("{\"Remove\":{\"Ok\":null}}"@)
}

/// What opens the response to a `Remove` request that failed, up to the error's
/// text.
pub open spec fn remove_err_head() -> Seq<u8> {
    ascii("{\"Remove\":{\"Err\":"@)
}

/// The bytes of a request on the wire.
pub open spec fn encoded_request(q: Query) -> Seq<u8> {
    match q {
        Query::Get { key } => get_head() + quoted(key) + tail(),
        Query::Put { key, value } => set_head() + quoted(key) + value_sep() + quoted(value)
            + tail(),
        Query::Remove { key } => remove_head() + quoted(key) + tail(),
    }
}

/// The bytes of a response on the wire.
pub open spec fn encoded_response(r: Reply) -> Seq<u8> {
    match r {
        Reply::Get(Ok(None)) => get_none(),
        Reply::Get(Ok(Some(value))) => get_ok_head() + quoted(value) + tail(),
        Reply::Get(Err(text)) => get_err_head() + quoted(text) + tail(),
        Reply::Put(Ok(_)) => set_ok(),
        Reply::Put(Err(text)) => set_err_head() + quoted(text) + tail(),
        Reply::Remove(Ok(_)) => remove_ok(),
        Reply::Remove(Err(text)) => remove_err_head() + quoted(text) + tail(),
    }
}

/// The string that follows `head` at `pos` and is followed by the closing
/// braces, with the index just past them.
pub open spec fn framed_string(bytes: Seq<u8>, pos: int, head: Seq<u8>) -> Option<(Seq<char>, int)> {
    if occurs_at(bytes, pos, head) {
        match string_at(bytes, pos + head.len()) {
            Some((s, p1)) => if occurs_at(bytes, p1, tail()) {
                Some((s, p1 + tail().len()))
            } else {
                None
            },
            None => None,
        }
    } else {
        None
    }
}

/// The request that starts at `pos`, with the index just past it; `None`
/// where no well-formed request starts there.
pub open spec fn request_at(bytes: Seq<u8>, pos: int) -> Option<(Query, int)> {
    if occurs_at(bytes, pos, get_head()) {
        match framed_string(bytes, pos, get_head()) {
            Some((key, end)) => Some((Query::Get { key }, end)),
            None => None,
        }
    } else if occurs_at(bytes, pos, remove_head()) {
        match framed_string(bytes, pos, remove_head()) {
            Some((key, end)) => Some((Query::Remove { key }, end)),
            None => None,
        }
    } else if occurs_at(bytes, pos, set_head()) {
        match string_at(bytes, pos + set_head().len()) {
            Some((key, p1)) => match framed_string(bytes, p1, value_sep()) {
                Some((value, end)) => Some((Query::Put { key, value }, end)),
                None => None,
            },
            None => None,
        }
    } else {
        None
    }
}

/// The response that starts at `pos`, with the index just past it; `None`
/// where no well-formed response starts there.
pub open spec fn response_at(bytes: Seq<u8>, pos: int) -> Option<(Reply, int)> {
    if occurs_at(bytes, pos, get_none()) {
        Some((Reply::Get(Ok(None)), pos + get_none().len()))
    } else if occurs_at(bytes, pos, get_ok_head()) {
        match framed_string(bytes, pos, get_ok_head()) {
            Some((value, end)) => Some((Reply::Get(Ok(Some(value))), end)),
            None => None,
        }
    } else if occurs_at(bytes, pos, get_err_head()) {
        match framed_string(bytes, pos, get_err_head()) {
            Some((text, end)) => Some((Reply::Get(Err(text)), end)),
            None => None,
        }
    } else if occurs_at(bytes, pos, set_ok()) {
        Some((Reply::Put(Ok(())), pos + set_ok().len()))
    } else if occurs_at(bytes, pos, set_err_head()) {
        match framed_string(bytes, pos, set_err_head()) {
            Some((text, end)) => Some((Reply::Put(Err(text)), end)),
            None => None,
        }
    } else if occurs_at(bytes, pos, remove_ok()) {
        Some((Reply::Remove(Ok(())), pos + remove_ok().len()))
    } else if occurs_at(bytes, pos, remove_err_head()) {
        match framed_string(bytes, pos, remove_err_head()) {
            Some((text, end)) => Some((Reply::Remove(Err(text)), end)),
            None => None,
        }
    } else {
        None
    }
}

/// Whether the bytes from `pos` on are the start of a request that has not
/// come in full: they end within the frame of a request, and each of them
/// stands where the frame has it.
pub open spec fn request_cut(bytes: Seq<u8>, pos: int) -> bool {
    ||| frame_cut(bytes, pos, get_head(), tail())
    ||| frame_cut(bytes, pos, remove_head(), tail())
    ||| pair_cut(bytes, pos, set_head(), value_sep(), tail())
}

/// Whether the bytes from `pos` on are the start of a response that has not
/// come in full.
pub open spec fn response_cut(bytes: Seq<u8>, pos: int) -> bool {
    ||| text_cut(bytes, pos, get_none())
    ||| frame_cut(bytes, pos, get_ok_head(), tail())
    ||| frame_cut(bytes, pos, get_err_head(), tail())
    ||| text_cut(bytes, pos, set_ok())
    ||| frame_cut(bytes, pos, set_err_head(), tail())
    ||| text_cut(bytes, pos, remove_ok())
    ||| frame_cut(bytes, pos, remove_err_head(), tail())
}

/// Reads the string that follows `head` at `pos` and is followed by the
/// closing braces.
fn read_framed(bytes: &[u8], pos: usize, head: &str) -> (r: Result<(String, usize), KvsError>)
    requires
        is_ascii(head),
    ensures
        match r {
            Ok((s, end)) => framed_string(bytes@, pos as int, ascii(head@)) == Some(
                (s@, end as int),
            ) && pos < end <= bytes@.len(),
            Err(e) => framed_string(bytes@, pos as int, ascii(head@)) is None && e is SerdeError,
        },
{
    proof {
        reveal_strlit("}}");
    }
    let p0 = match skip_text(bytes, pos, head) {
        Some(p) => p,
        None => {
            return Err(malformed("unexpected message"));
        },
    };
    let (s, p1) = match read_string(bytes, p0) {
        Ok(found) => found,
        Err(text) => {
            return Err(KvsError::SerdeError(text));
        },
    };
    match skip_text(bytes, p1, "}}") {
        Some(end) => Ok((s, end)),
        None => Err(malformed("expected the end of a message")),
    }
}

/// Appends `head`, the literal of `s` and the closing braces to `out`.
fn append_framed(out: &mut Vec<u8>, head: &str, s: &str)
    requires
        is_ascii(head),
    ensures
        final(out)@ == old(out)@ + ascii(head@) + quoted(s@) + tail(),
{
    proof {
        reveal_strlit("}}");
    }
    append_text(out, head);
    append_quoted(out, s);
    append_text(out, "}}");
}

impl Request {
    /// The bytes of the request, as they go over the wire.
    pub fn encode(&self) -> (r: Vec<u8>)
        ensures
            r@ == encoded_request(self@),
    {
        proof {
            reveal_strlit("{\"Get\":{\"key\":");
            reveal_strlit("{\"Set\":{\"key\":");
            reveal_strlit("{\"Remove\":{\"key\":");
            reveal_strlit(",\"value\":");
        }
        let mut out: Vec<u8> = Vec::new();
        match self {
            Request::Get { key } => append_framed(&mut out, "{\"Get\":{\"key\":", key.as_str()),
            Request::Put { key, value } => {
                append_text(&mut out, "{\"Set\":{\"key\":");
                append_quoted(&mut out, key.as_str());
                append_framed(&mut out, ",\"value\":", value.as_str());
            },
            Request::Remove { key } => append_framed(
                &mut out,
                "{\"Remove\":{\"key\":",
                key.as_str(),
            ),
        }
        out
    }

    /// Whether the bytes from `pos` on are the start of a request that has
    /// not come in full, so that a server waits for more; also so where they
    /// are none at all. Where it is `false` and no request reads at `pos`,
    /// the bytes are malformed.
    pub fn may_go_on(bytes: &[u8], pos: usize) -> (r: bool)
        ensures
            r == request_cut(bytes@, pos as int),
    {
        proof {
            reveal_strlit("{\"Get\":{\"key\":");
            reveal_strlit("{\"Set\":{\"key\":");
            reveal_strlit("{\"Remove\":{\"key\":");
            reveal_strlit(",\"value\":");
            reveal_strlit("}}");
        }
        frame_cut_at(bytes, pos, "{\"Get\":{\"key\":", "}}") || frame_cut_at(
            bytes,
            pos,
            "{\"Remove\":{\"key\":",
            "}}",
        ) || pair_cut_at(bytes, pos, "{\"Set\":{\"key\":", ",\"value\":", "}}")
    }

    /// Reads the request that starts at `pos`. The result is the request and
    /// the offset just past it; a `SerdeError` where no well-formed request
    /// starts at `pos`, which is also so where its bytes have not all come
    /// yet.
    pub fn decode_at(bytes: &[u8], pos: usize) -> (r: Result<(Request, usize), KvsError>)
        ensures
            match r {
                Ok((req, end)) => request_at(bytes@, pos as int) == Some((req@, end as int))
                    && pos < end <= bytes@.len(),
                Err(e) => request_at(bytes@, pos as int) is None && e is SerdeError,
            },
    {
        proof {
            reveal_strlit("{\"Get\":{\"key\":");
            reveal_strlit("{\"Set\":{\"key\":");
            reveal_strlit("{\"Remove\":{\"key\":");
            reveal_strlit(",\"value\":");
        }
        if skip_text(bytes, pos, "{\"Get\":{\"key\":").is_some() {
            match read_framed(bytes, pos, "{\"Get\":{\"key\":") {
                Ok((key, end)) => Ok((Request::Get { key }, end)),
                Err(e) => Err(e),
            }
        } else if skip_text(bytes, pos, "{\"Remove\":{\"key\":").is_some() {
            match read_framed(bytes, pos, "{\"Remove\":{\"key\":") {
                Ok((key, end)) => Ok((Request::Remove { key }, end)),
                Err(e) => Err(e),
            }
        } else if let Some(p0) = skip_text(bytes, pos, "{\"Set\":{\"key\":") {
            let (key, p1) = match read_string(bytes, p0) {
                Ok(found) => found,
                Err(text) => {
                    return Err(KvsError::SerdeError(text));
                },
            };
            match read_framed(bytes, p1, ",\"value\":") {
                Ok((value, end)) => Ok((Request::Put { key, value }, end)),
                Err(e) => Err(e),
            }
        } else {
            Err(malformed("expected a request"))
        }
    }
}

impl Response {
    /// The bytes of the response, as they go over the wire.
    pub fn encode(&self) -> (r: Vec<u8>)
        ensures
            r@ == encoded_response(self@),
    {
        proof {
            reveal_strlit("{\"Get\":{\"Ok\":null}}");
            reveal_strlit("{\"Get\":{\"Ok\":");
            reveal_strlit("{\"Get\":{\"Err\":");
            reveal_strlit("{\"Set\":{\"Ok\":null}}");
            reveal_strlit("{\"Set\":{\"Err\":");
            reveal_strlit("{\"Remove\":{\"Ok\":null}}");
            reveal_strlit("{\"Remove\":{\"Err\":");
        }
        let mut out: Vec<u8> = Vec::new();
        match self {
            Response::Get(Ok(None)) => append_text(&mut out, "{\"Get\":{\"Ok\":null}}"),
            Response::Get(Ok(Some(value))) => append_framed(
                &mut out,
                "{\"Get\":{\"Ok\":",
                value.as_str(),
            ),
            Response::Get(Err(text)) => append_framed(&mut out, "{\"Get\":{\"Err\":", text.as_str()),
            Response::Put(Ok(_)) => append_text(&mut out, "{\"Set\":{\"Ok\":null}}"),
            Response::Put(Err(text)) => append_framed(&mut out, "{\"Set\":{\"Err\":", text.as_str()),
            Response::Remove(Ok(_)) => append_text(&mut out, "{\"Remove\":{\"Ok\":null}}"),
            Response::Remove(Err(text)) => append_framed(
                &mut out,
                "{\"Remove\":{\"Err\":",
                text.as_str(),
            ),
        }
        out
    }

    /// Whether the bytes from `pos` on are the start of a response that has
    /// not come in full, so that a client waits for more; also so where they
    /// are none at all. Where it is `false` and no response reads at `pos`,
    /// the bytes are malformed.
    pub fn may_go_on(bytes: &[u8], pos: usize) -> (r: bool)
        ensures
            r == response_cut(bytes@, pos as int),
    {
        proof {
            reveal_strlit("{\"Get\":{\"Ok\":null}}");
            reveal_strlit("{\"Get\":{\"Ok\":");
            reveal_strlit("{\"Get\":{\"Err\":");
            reveal_strlit("{\"Set\":{\"Ok\":null}}");
            reveal_strlit("{\"Set\":{\"Err\":");
            reveal_strlit("{\"Remove\":{\"Ok\":null}}");
            reveal_strlit("{\"Remove\":{\"Err\":");
            reveal_strlit("}}");
        }
        text_cut_at(bytes, pos, "{\"Get\":{\"Ok\":null}}") || frame_cut_at(
            bytes,
            pos,
            "{\"Get\":{\"Ok\":",
            "}}",
        ) || frame_cut_at(bytes, pos, "{\"Get\":{\"Err\":", "}}") || text_cut_at(
            bytes,
            pos,
            "{\"Set\":{\"Ok\":null}}",
        ) || frame_cut_at(bytes, pos, "{\"Set\":{\"Err\":", "}}") || text_cut_at(
            bytes,
            pos,
            "{\"Remove\":{\"Ok\":null}}",
        ) || frame_cut_at(bytes, pos, "{\"Remove\":{\"Err\":", "}}")
    }

    /// Reads the response that starts at `pos`. The result is the response
    /// and the offset just past it; a `SerdeError` where no well-formed
    /// response starts at `pos`, which is also so where its bytes have not
    /// all come yet.
    pub fn decode_at(bytes: &[u8], pos: usize) -> (r: Result<(Response, usize), KvsError>)
        ensures
            match r {
                Ok((resp, end)) => response_at(bytes@, pos as int) == Some((resp@, end as int))
                    && pos < end <= bytes@.len(),
                Err(e) => response_at(bytes@, pos as int) is None && e is SerdeError,
            },
    {
        proof {
            reveal_strlit("{\"Get\":{\"Ok\":null}}");
            reveal_strlit("{\"Get\":{\"Ok\":");
            reveal_strlit("{\"Get\":{\"Err\":");
            reveal_strlit("{\"Set\":{\"Ok\":null}}");
            reveal_strlit("{\"Set\":{\"Err\":");
            reveal_strlit("{\"Remove\":{\"Ok\":null}}");
            reveal_strlit("{\"Remove\":{\"Err\":");
        }
        if let Some(end) = skip_text(bytes, pos, "{\"Get\":{\"Ok\":null}}") {
            Ok((Response::Get(Ok(None)), end))
        } else if skip_text(bytes, pos, "{\"Get\":{\"Ok\":").is_some() {
            match read_framed(bytes, pos, "{\"Get\":{\"Ok\":") {
                Ok((value, end)) => Ok((Response::Get(Ok(Some(value))), end)),
                Err(e) => Err(e),
            }
        } else if skip_text(bytes, pos, "{\"Get\":{\"Err\":").is_some() {
            match read_framed(bytes, pos, "{\"Get\":{\"Err\":") {
                Ok((text, end)) => Ok((Response::Get(Err(text)), end)),
                Err(e) => Err(e),
            }
        } else if let Some(end) = skip_text(bytes, pos, "{\"Set\":{\"Ok\":null}}") {
            Ok((Response::Put(Ok(())), end))
        } else if skip_text(bytes, pos, "{\"Set\":{\"Err\":").is_some() {
            match read_framed(bytes, pos, "{\"Set\":{\"Err\":") {
                Ok((text, end)) => Ok((Response::Put(Err(text)), end)),
                Err(e) => Err(e),
            }
        } else if let Some(end) = skip_text(bytes, pos, "{\"Remove\":{\"Ok\":null}}") {
            Ok((Response::Remove(Ok(())), end))
        } else if skip_text(bytes, pos, "{\"Remove\":{\"Err\":").is_some() {
            match read_framed(bytes, pos, "{\"Remove\":{\"Err\":") {
                Ok((text, end)) => Ok((Response::Remove(Err(text)), end)),
                Err(e) => Err(e),
            }
        } else {
            Err(malformed("expected a response"))
        }
    }
}

} // verus!
