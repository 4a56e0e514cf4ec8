//! What the server does with a request: hand it to the engine and turn the
//! engine's answer into a response. Listening and the sockets are left to
//! the program around the library.

use crate::engine::KvsEngine;
use crate::kvs_error::{message_of, KvsError};
use crate::protocol::{request_at, Query, Reply, Request, Response};
use vstd::prelude::*;

verus! {

/// The storage engines that a server can run on.
#[derive(Debug, Clone, Copy, PartialEq, Eq, Structural)]
pub enum Engine {
    /// The log-structured store of this library, called `kvs`.
    Kvs,
    /// The embedded `sled` store, called `sled`.
    Sled,
}

impl Engine {
    /// The engine called `name`: `kvs` or `sled`; `ParseEngineNameErr` for
    /// any other name.
    pub fn parse(name: &str) -> (r: Result<Engine, KvsError>)
        ensures
            name@ == "kvs"@ ==> r == Ok::<Engine, KvsError>(Engine::Kvs),
            name@ == "sled"@ ==> r == Ok::<Engine, KvsError>(Engine::Sled),
            name@ != "kvs"@ && name@ != "sled"@ ==> r is Err && r->Err_0 is ParseEngineNameErr,
    {
        proof {
            reveal_strlit("kvs");
            reveal_strlit("sled");
            assert("kvs"@.len() == 3 && "sled"@.len() == 4);
        }
        let name = String::from_str(name);
        if name == String::from_str("kvs") {
            Ok(Engine::Kvs)
        } else if name == String::from_str("sled") {
            Ok(Engine::Sled)
        } else {
            Err(KvsError::ParseEngineNameErr)
        }
    }

    /// The name of the engine, as `parse` reads it.
    pub fn name(&self) -> (r: String)
        ensures
            r@ == (match *self {
                Engine::Kvs => "kvs"@,
                Engine::Sled => "sled"@,
            }),
    {
        match self {
            Engine::Kvs => String::from_str("kvs"),
            Engine::Sled => String::from_str("sled"),
        }
    }
}

/// The engine that a directory was used with before, as its `engine` file
/// records it: none where there is no such file or where it does not hold
/// the name of an engine.
pub fn recorded_engine(file: Option<&str>) -> (r: Option<Engine>)
    ensures
        r == (match file {
            Some(text) => if text@ == "kvs"@ {
                Some(Engine::Kvs)
            } else if text@ == "sled"@ {
                Some(Engine::Sled)
            } else {
                None
            },
            None => None,
        }),
{
    proof {
        reveal_strlit("kvs");
        reveal_strlit("sled");
    }
    match file {
        Some(text) => match Engine::parse(text) {
            Ok(engine) => Some(engine),
            Err(_) => None,
        },
        None => None,
    }
}

/// The engine to run: the one asked for, else the one recorded, else `kvs`.
/// `None` where one is asked for and another is recorded: a directory is not
/// opened with an engine that did not write it.
pub fn select_engine(asked: Option<Engine>, recorded: Option<Engine>) -> (r: Option<Engine>)
    ensures
        r == (match (asked, recorded) {
            (Some(a), Some(b)) => if a == b {
                Some(a)
            } else {
                None
            },
            (Some(a), None) => Some(a),
            (None, Some(b)) => Some(b),
            (None, None) => Some(Engine::Kvs),
        }),
{
    match (asked, recorded) {
        (Some(a), Some(b)) => if a == b {
            Some(a)
        } else {
            None
        },
        (Some(a), None) => Some(a),
        (None, Some(b)) => Some(b),
        (None, None) => Some(Engine::Kvs),
    }
}

/// The response to a `Get` request, from what the engine returned: the value
/// or its absence, or the text of the error.
pub fn get_response(result: Result<Option<String>, KvsError>) -> (r: Response)
    ensures
        r@ == (match result {
            Ok(Some(value)) => Reply::Get(Ok(Some(value@))),
            Ok(None) => Reply::Get(Ok(None)),
            Err(e) => Reply::Get(Err(message_of(e))),
        }),
{
    match result {
        Ok(found) => Response::Get(Ok(found)),
        Err(e) => Response::Get(Err(e.message())),
    }
}

/// The response to a `Set` request, from what the engine returned.
pub fn set_response(result: Result<(), KvsError>) -> (r: Response)
    ensures
        r@ == (match result {
            Ok(_) => Reply::Put(Ok(())),
            Err(e) => Reply::Put(Err(message_of(e))),
        }),
{
    match result {
        Ok(_) => Response::Put(Ok(())),
        Err(e) => Response::Put(Err(e.message())),
    }
}

/// The response to a `Remove` request, from what the engine returned.
pub fn remove_response(result: Result<(), KvsError>) -> (r: Response)
    ensures
        r@ == (match result {
            Ok(_) => Reply::Remove(Ok(())),
            Err(e) => Reply::Remove(Err(message_of(e))),
        }),
{
    match result {
        Ok(_) => Response::Remove(Ok(())),
        Err(e) => Response::Remove(Err(e.message())),
    }
}

/// Whether a response is of the kind that answers the request.
pub open spec fn answers(reply: Reply, query: Query) -> bool {
    match query {
        Query::Get { key } => reply is Get,
        Query::Put { key, value } => reply is Put,
        Query::Remove { key } => reply is Remove,
    }
}

/// Hands one request to the engine and answers with what it returned. What
/// the answer holds is up to the engine; `get_response`, `set_response` and
/// `remove_response` say how it is made from the engine's result.
pub fn dispatch<E: KvsEngine>(engine: &E, req: Request) -> (r: Response)
    ensures
        answers(r@, req@),
{
    match req {
        Request::Get { key } => get_response(engine.get(key)),
        Request::Put { key, value } => set_response(engine.set(key, value)),
        Request::Remove { key } => remove_response(engine.remove(key)),
    }
}

/// The requests that stand in `bytes` one after the other from `pos` on, up
/// to the first place where no well-formed request starts.
pub open spec fn requests_from(bytes: Seq<u8>, pos: int) -> Seq<Query>
    decreases bytes.len() - pos,
{
    match request_at(bytes, pos) {
        Some((query, end)) => if pos < end <= bytes.len() {
            seq![query] + requests_from(bytes, end)
        } else {
            Seq::empty()
        },
        None => Seq::empty(),
    }
}

/// The index just past the last of the requests that stand in `bytes` one
/// after the other from `pos` on.
pub open spec fn requests_end(bytes: Seq<u8>, pos: int) -> int
    decreases bytes.len() - pos,
{
    match request_at(bytes, pos) {
        Some((query, end)) => if pos < end <= bytes.len() {
            requests_end(bytes, end)
        } else {
            pos
        },
        None => pos,
    }
}

/// Serves the requests that have come in full: hands each to the engine, in
/// order, and collects the responses. The second part of the result is the
/// number of bytes that were read as requests; what follows them is the
/// start of a request that has not come in full, or no request at all:
/// `Request::may_go_on` tells the two apart.
pub fn serve<E: KvsEngine>(engine: &E, bytes: &[u8]) -> (r: (Vec<Response>, usize))
    ensures
        r.1 == requests_end(bytes@, 0),
        r.0@.len() == requests_from(bytes@, 0).len(),
        forall|i: int|
            0 <= i < r.0@.len() ==> answers(#[trigger] r.0@[i]@, requests_from(bytes@, 0)[i]),
{
    let mut responses: Vec<Response> = Vec::new();
    let mut pos: usize = 0;
    let ghost mut seen: Seq<Query> = Seq::empty();
    loop
        invariant
            pos <= bytes@.len(),
            requests_from(bytes@, 0) == seen + requests_from(bytes@, pos as int),
            requests_end(bytes@, 0) == requests_end(bytes@, pos as int),
            responses@.len() == seen.len(),
            forall|i: int| 0 <= i < responses@.len() ==> answers(#[trigger] responses@[i]@, seen[i]),
        ensures
            pos == requests_end(bytes@, 0),
            responses@.len() == requests_from(bytes@, 0).len(),
            forall|i: int|
                0 <= i < responses@.len() ==> answers(
                    #[trigger] responses@[i]@,
                    requests_from(bytes@, 0)[i],
                ),
        decreases bytes@.len() - pos,
    {
        match Request::decode_at(bytes, pos) {
            Ok((req, end)) => {
                proof {
                    assert(seen + (seq![req@] + requests_from(bytes@, end as int)) =~= seen.push(
                        req@,
                    ) + requests_from(bytes@, end as int));
                    seen = seen.push(req@);
                }
                let resp = dispatch(engine, req);
                responses.push(resp);
                pos = end;
            },
            Err(_) => {
                assert(seen + requests_from(bytes@, pos as int) =~= seen);
                break ;
            },
        }
    }
    (responses, pos)
}

} // verus!
