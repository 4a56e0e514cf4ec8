//! The two records of the log and their format on disk.
//!
//! A record is one JSON object; records abut in a segment with nothing
//! between them:
//!
//! ```text
//! {"Set":{"key":"<k>","value":"<v>"}}
//! {"Rm":{"key":"<k>"}}
//! ```

use crate::json::{
    append_quoted, append_text, ascii, frame_cut, frame_cut_at, malformed, occurs_at, pair_cut,
    pair_cut_at, quoted, read_string, skip_text, string_at,
};
use crate::kvs_error::KvsError;
use vstd::prelude::*;
use vstd::string::*;

verus! {

/// One record of the log. `Put` is the record that the log spells `Set`.
#[derive(Debug, Clone, PartialEq, Eq)]
pub enum Cmd {
    /// Installs `value` under `key`.
    Put { key: String, value: String },
    /// Retracts the mapping of `key`.
    Rm { key: String },
}

/// A record as a mathematical value.
pub enum Record {
    Put { key: Seq<char>, value: Seq<char> },
    Rm { key: Seq<char> },
}

impl View for Cmd {
    type V = Record;

    open spec fn view(&self) -> Record {
        match self {
            Cmd::Put { key, value } => Record::Put { key: key@, value: value@ },
            Cmd::Rm { key } => Record::Rm { key: key@ },
        }
    }
}

/// What opens a `Set` record, up to its key.
pub open spec fn set_head() -> Seq<u8> {
    ascii("{\"Set\":{\"key\":"@)
}

/// What stands between the key and the value of a `Set` record.
pub open spec fn value_sep() -> Seq<u8> {
    ascii(",\"value\":"@)
}

/// What opens a `Rm` record, up to its key.
pub open spec fn rm_head() -> Seq<u8> {
    ascii("{\"Rm\":{\"key\":"@)
}

/// What closes a record.
pub open spec fn tail() -> Seq<u8> {
    ascii("}}"@)
}

/// The bytes of a record on disk.
pub open spec fn encoded(rec: Record) -> Seq<u8> {
    match rec {
        Record::Put { key, value } => set_head() + quoted(key) + value_sep() + quoted(value)
            + tail(),
        Record::Rm { key } => rm_head() + quoted(key) + tail(),
    }
}

/// The record that starts at `pos`, with the index just past it; `None`
/// where no well-formed record starts there.
pub open spec fn decoded_at(bytes: Seq<u8>, pos: int) -> Option<(Record, int)> {
    if occurs_at(bytes, pos, set_head()) {
        match string_at(bytes, pos + set_head().len()) {
            Some((key, p1)) => if occurs_at(bytes, p1, value_sep()) {
                match string_at(bytes, p1 + value_sep().len()) {
                    Some((value, p2)) => if occurs_at(bytes, p2, tail()) {
                        Some((Record::Put { key, value }, p2 + tail().len()))
                    } else {
                        None
                    },
                    None => None,
                }
            } else {
                None
            },
            None => None,
        }
    } else if occurs_at(bytes, pos, rm_head()) {
        match string_at(bytes, pos + rm_head().len()) {
            Some((key, p1)) => if occurs_at(bytes, p1, tail()) {
                Some((Record::Rm { key }, p1 + tail().len()))
            } else {
                None
            },
            None => None,
        }
    } else {
        None
    }
}

/// Whether the bytes from `pos` on are the start of a record that has not
/// come in full: they end within the frame of a `Set` or of a `Rm` record,
/// and each of them stands where the frame has it. Where this holds, more
/// bytes may make a record of them; where it does not hold and no record
/// reads at `pos`, none will.
pub open spec fn cut_short(bytes: Seq<u8>, pos: int) -> bool {
    pair_cut(bytes, pos, set_head(), value_sep(), tail()) || frame_cut(
        bytes,
        pos,
        rm_head(),
        tail(),
    )
}

/// The record that `bytes` hold, where they hold exactly one.
pub open spec fn decoded(bytes: Seq<u8>) -> Option<Record> {
    match decoded_at(bytes, 0) {
        Some((rec, end)) => if end == bytes.len() {
            Some(rec)
        } else {
            None
        },
        None => None,
    }
}

impl Cmd {
    /// The bytes of the record, as a segment holds them.
    pub fn encode(&self) -> (r: Vec<u8>)
        ensures
            r@ == encoded(self@),
    {
        proof {
            reveal_strlit("{\"Set\":{\"key\":");
            reveal_strlit(",\"value\":");
            reveal_strlit("{\"Rm\":{\"key\":");
            reveal_strlit("}}");
        }
        let mut out: Vec<u8> = Vec::new();
        match self {
            Cmd::Put { key, value } => {
                append_text(&mut out, "{\"Set\":{\"key\":");
                append_quoted(&mut out, key.as_str());
                append_text(&mut out, ",\"value\":");
                append_quoted(&mut out, value.as_str());
                append_text(&mut out, "}}");
            },
            Cmd::Rm { key } => {
                append_text(&mut out, "{\"Rm\":{\"key\":");
                append_quoted(&mut out, key.as_str());
                append_text(&mut out, "}}");
            },
        }
        out
    }

    /// Reads the record that starts at `pos`. The result is the record and
    /// the offset just past it; a `SerdeError` where no well-formed record
    /// starts at `pos`.
    pub fn decode_at(bytes: &[u8], pos: usize) -> (r: Result<(Cmd, usize), KvsError>)
        ensures
            match r {
                Ok((cmd, end)) => decoded_at(bytes@, pos as int) == Some((cmd@, end as int))
                    && pos < end <= bytes@.len(),
                Err(e) => decoded_at(bytes@, pos as int) is None && e is SerdeError,
            },
    {
        proof {
            reveal_strlit("{\"Set\":{\"key\":");
            reveal_strlit(",\"value\":");
            reveal_strlit("{\"Rm\":{\"key\":");
            reveal_strlit("}}");
        }
        if let Some(p0) = skip_text(bytes, pos, "{\"Set\":{\"key\":") {
            let (key, p1) = match read_string(bytes, p0) {
                Ok(found) => found,
                Err(text) => { return Err(KvsError::SerdeError(text)); },
            };
            let q1 = match skip_text(bytes, p1, ",\"value\":") {
                Some(q) => q,
                None => { return Err(malformed("expected a value")); },
            };
            let (value, p2) = match read_string(bytes, q1) {
                Ok(found) => found,
                Err(text) => { return Err(KvsError::SerdeError(text)); },
            };
            match skip_text(bytes, p2, "}}") {
                Some(end) => Ok((Cmd::Put { key, value }, end)),
                None => Err(malformed("expected the end of a record")),
            }
        } else if let Some(p0) = skip_text(bytes, pos, "{\"Rm\":{\"key\":") {
            let (key, p1) = match read_string(bytes, p0) {
                Ok(found) => found,
                Err(text) => { return Err(KvsError::SerdeError(text)); },
            };
            match skip_text(bytes, p1, "}}") {
                Some(end) => Ok((Cmd::Rm { key }, end)),
                None => Err(malformed("expected the end of a record")),
            }
        } else {
            Err(malformed("expected a record"))
        }
    }

    /// Whether the bytes from `pos` on are the start of a record that has
    /// not come in full, so that a reader waits for more; also so where they
    /// are none at all. Where it is `false` and no record reads at `pos`,
    /// the bytes are malformed.
    pub fn may_go_on(bytes: &[u8], pos: usize) -> (r: bool)
        ensures
            r == cut_short(bytes@, pos as int),
    {
        proof {
            reveal_strlit("{\"Set\":{\"key\":");
            reveal_strlit(",\"value\":");
            reveal_strlit("{\"Rm\":{\"key\":");
            reveal_strlit("}}");
        }
        pair_cut_at(bytes, pos, "{\"Set\":{\"key\":", ",\"value\":", "}}") || frame_cut_at(
            bytes,
            pos,
            "{\"Rm\":{\"key\":",
            "}}",
        )
    }

    /// Reads the one record that `bytes` hold. A `SerdeError` where they do
    /// not hold exactly one well-formed record.
    pub fn decode(bytes: &[u8]) -> (r: Result<Cmd, KvsError>)
        ensures
            match r {
                Ok(cmd) => decoded(bytes@) == Some(cmd@),
                Err(e) => decoded(bytes@) is None && e is SerdeError,
            },
    {
        match Cmd::decode_at(bytes, 0) {
            Ok((cmd, end)) => {
                if end == bytes.len() {
                    Ok(cmd)
                } else {
                    Err(malformed("trailing bytes after a record"))
                }
            },
            Err(e) => Err(e),
        }
    }
}

} // verus!
