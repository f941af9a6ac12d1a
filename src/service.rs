//! What the server answers to a request, and what a client makes of the
//! answer.
use vstd::prelude::*;
use crate::engine::KvsEngine;
use crate::error::{KvsError, error_text};
use crate::protocol::{Request, Response, ResponseView};

verus! {

/// The answer to a write, from its outcome.
pub fn write_response(outcome: Result<(), KvsError>) -> (r: Response)
    ensures
        r@ == match outcome {
            Ok(_) => ResponseView::Done,
            Err(e) => ResponseView::Error(error_text(e)),
        },
{
    match outcome {
        Ok(()) => Response::Done,
        Err(e) => Response::Error(e.message()),
    }
}

/// The answer to a read, from its outcome.
pub fn read_response(outcome: Result<Option<String>, KvsError>) -> (r: Response)
    ensures
        r@ == match outcome {
            Ok(Some(v)) => ResponseView::Get(Some(v@)),
            Ok(None) => ResponseView::Get(None),
            Err(e) => ResponseView::Error(error_text(e)),
        },
{
    match outcome {
        Ok(v) => Response::Get(v),
        Err(e) => Response::Error(e.message()),
    }
}

/// The answer to a write with outcome `o`.
pub open spec fn write_answer(o: Result<(), KvsError>) -> ResponseView {
    match o {
        Ok(_) => ResponseView::Done,
        Err(e) => ResponseView::Error(error_text(e)),
    }
}

/// The answer to a read with outcome `o`.
pub open spec fn read_answer(o: Result<Option<String>, KvsError>) -> ResponseView {
    match o {
        Ok(Some(v)) => ResponseView::Get(Some(v@)),
        Ok(None) => ResponseView::Get(None),
        Err(e) => ResponseView::Error(error_text(e)),
    }
}

/// Carries out a request on the engine and answers it: the request's key
/// and value go to the matching engine operation, and its outcome decides
/// the answer.
pub fn serve<E: KvsEngine>(engine: &E, request: &Request) -> (r: Response)
    ensures
        match request {
            Request::Put(k, v) => exists|o: Result<(), KvsError>|
                #[trigger] call_ensures(E::set, (engine, *k, *v), o) && r@ == write_answer(o),
            Request::Get(k) => exists|o: Result<Option<String>, KvsError>|
                #[trigger] call_ensures(E::get, (engine, *k), o) && r@ == read_answer(o),
            Request::Remove(k) => exists|o: Result<(), KvsError>|
                #[trigger] call_ensures(E::remove, (engine, *k), o) && r@ == write_answer(o),
        },
{
    match request {
        Request::Put(k, v) => write_response(engine.set(k.clone(), v.clone())),
        Request::Get(k) => read_response(engine.get(k.clone())),
        Request::Remove(k) => write_response(engine.remove(k.clone())),
    }
}

/// The text the server sends for a removal of a key that holds no value.
pub open spec fn key_not_found_text() -> Seq<char> {
    error_text(KvsError::KeyNotFound)
}

/// What a client makes of the answer to a `Put`.
pub fn put_reply(response: Response) -> (r: Result<(), KvsError>)
    ensures
        match response {
            Response::Done => r is Ok,
            Response::Error(m) => r is Err && r->Err_0 is Server && r->Err_0->Server_0@ == m@,
            Response::Get(_) => r == Err::<(), KvsError>(KvsError::Protocol),
        },
{
    match response {
        Response::Done => Ok(()),
        Response::Error(m) => Err(KvsError::Server(m)),
        Response::Get(_) => Err(KvsError::Protocol),
    }
}

/// What a client makes of the answer to a `Get`.
pub fn get_reply(response: Response) -> (r: Result<Option<String>, KvsError>)
    ensures
        match response {
            Response::Get(v) => r == Ok::<Option<String>, KvsError>(v),
            Response::Error(m) => r is Err && r->Err_0 is Server && r->Err_0->Server_0@ == m@,
            Response::Done => r == Err::<Option<String>, KvsError>(KvsError::Protocol),
        },
{
    match response {
        Response::Get(v) => Ok(v),
        Response::Error(m) => Err(KvsError::Server(m)),
        Response::Done => Err(KvsError::Protocol),
    }
}

/// What a client makes of the answer to a `Remove`: the server's text for
/// a missing key becomes `KeyNotFound`.
pub fn remove_reply(response: Response) -> (r: Result<(), KvsError>)
    ensures
        match response {
            Response::Done => r is Ok,
            Response::Error(m) => if m@ == key_not_found_text() {
                r == Err::<(), KvsError>(KvsError::KeyNotFound)
            } else {
                r is Err && r->Err_0 is Server && r->Err_0->Server_0@ == m@
            },
            Response::Get(_) => r == Err::<(), KvsError>(KvsError::Protocol),
        },
{
    match response {
        Response::Done => Ok(()),
        Response::Error(m) => {
            let missing = KvsError::KeyNotFound.message();
            if m.eq(&missing) {
                Err(KvsError::KeyNotFound)
            } else {
                Err(KvsError::Server(m))
            }
        },
        Response::Get(_) => Err(KvsError::Protocol),
    }
}

} // verus!
