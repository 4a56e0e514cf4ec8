//! What the client makes of the server's responses. Connecting and the
//! sockets are left to the program around the library.

use crate::kvs_error::KvsError;
use crate::protocol::Response;
use vstd::prelude::*;

verus! {

/// The result of a `get`, from the server's response: the value or its
/// absence; the server's error as a `StringErr`. The response must be one to
/// a `Get` request.
pub fn get_result(resp: Response) -> (r: Result<Option<String>, KvsError>)
    requires
        resp is Get,
    ensures
        match resp->Get_0 {
            Ok(found) => r == Ok::<Option<String>, KvsError>(found),
            Err(text) => r == Err::<Option<String>, KvsError>(KvsError::StringErr(text)),
        },
{
    match resp {
        Response::Get(Ok(found)) => Ok(found),
        Response::Get(Err(text)) => Err(KvsError::StringErr(text)),
        _ => Ok(None),
    }
}

/// The result of a `set`, from the server's response: the server's error as
/// a `StringErr`. The response must be one to a `Set` request.
pub fn set_result(resp: Response) -> (r: Result<(), KvsError>)
    requires
        resp is Put,
    ensures
        match resp->Put_0 {
            Ok(_) => r is Ok,
            Err(text) => r == Err::<(), KvsError>(KvsError::StringErr(text)),
        },
{
    match resp {
        Response::Put(Ok(_)) => Ok(()),
        Response::Put(Err(text)) => Err(KvsError::StringErr(text)),
        _ => Ok(()),
    }
}

/// The result of a `remove`, from the server's response: the server's error
/// as a `StringErr`. The response must be one to a `Remove` request.
pub fn remove_result(resp: Response) -> (r: Result<(), KvsError>)
    requires
        resp is Remove,
    ensures
        match resp->Remove_0 {
            Ok(_) => r is Ok,
            Err(text) => r == Err::<(), KvsError>(KvsError::StringErr(text)),
        },
{
    match resp {
        Response::Remove(Ok(_)) => Ok(()),
        Response::Remove(Err(text)) => Err(KvsError::StringErr(text)),
        _ => Ok(()),
    }
}

} // verus!
