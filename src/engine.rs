//! The capability every storage backend offers, and how the server answers
//! one request with it.

use vstd::prelude::*;
use crate::error::StoreError;
use crate::protocol::{
    encode_get_response, encode_unit_response, frame, get_response, get_result_body,
    unit_response, unit_result_body, Request, RequestModel,
};

verus! {

/// One call made on an engine, with what it returned.
pub enum EngineCall {
    Get { key: Seq<char>, result: Result<Option<String>, StoreError> },
    Put { key: Seq<char>, value: Seq<char>, result: Result<(), StoreError> },
    Remove { key: Seq<char>, result: Result<(), StoreError> },
}

/// A storage backend: string keys to string values. What each call returns
/// is the backend's own; a backend verified here records the calls made on it.
pub trait Engine {
    /// The calls made on this engine so far, oldest first. A backend verified
    /// here keeps this record; the empty default is there so that a backend
    /// written outside verified code compiles, and nothing is proved of it.
    closed spec fn calls(&self) -> Seq<EngineCall> {
        Seq::empty()
    }

    /// Sets `key` to `value`.
    fn set(&mut self, key: String, value: String) -> (r: Result<(), StoreError>)
        ensures
            final(self).calls() == old(self).calls().push(
                EngineCall::Put { key: key@, value: value@, result: r },
            ),
    ;

    /// The value of `key`, or `None` where the key is not set.
    fn get(&mut self, key: String) -> (r: Result<Option<String>, StoreError>)
        ensures
            final(self).calls() == old(self).calls().push(EngineCall::Get { key: key@, result: r }),
    ;

    /// Removes `key`; `KeyNotFound` where the key is not set.
    fn remove(&mut self, key: String) -> (r: Result<(), StoreError>)
        ensures
            final(self).calls() == old(self).calls().push(
                EngineCall::Remove { key: key@, result: r },
            ),
    ;
}

/// The response frame that answers `request` when the engine call it made is
/// `call`; false where the call does not match the request.
pub open spec fn answers(request: RequestModel, call: EngineCall, reply: Seq<u8>) -> bool {
    match (request, call) {
        (RequestModel::Get { key }, EngineCall::Get { key: k, result }) => k == key && reply
            == frame(get_result_body(result)),
        (RequestModel::Put { key, value }, EngineCall::Put { key: k, value: v, result }) => k
            == key && v == value && reply == frame(unit_result_body(result)),
        (RequestModel::Remove { key }, EngineCall::Remove { key: k, result }) => k == key && reply
            == frame(unit_result_body(result)),
        _ => false,
    }
}

/// Carries out one request on `engine`: makes exactly one call, the one the
/// request names, with its key and value, and returns the response frame
/// that carries that call's result.
pub fn respond<E: Engine>(engine: &mut E, request: Request) -> (r: Vec<u8>)
    ensures
        final(engine).calls().len() == old(engine).calls().len() + 1,
        final(engine).calls().drop_last() == old(engine).calls(),
        answers(request@, final(engine).calls().last(), r@),
{
    let ghost before = engine.calls();
    let r = match request {
        Request::Get { key } => {
            let resp = get_response(engine.get(key));
            encode_get_response(&resp)
        },
        Request::Put { key, value } => {
            let resp = unit_response(engine.set(key, value));
            encode_unit_response(&resp)
        },
        Request::Remove { key } => {
            let resp = unit_response(engine.remove(key));
            encode_unit_response(&resp)
        },
    };
    proof {
        assert(engine.calls().drop_last() =~= before);
    }
    r
}

} // verus!
