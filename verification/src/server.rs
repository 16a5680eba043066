//! What the server does with a request: it hands the request to the engine,
//! then turns the engine's answer into reply bytes.
use vstd::prelude::*;
use vstd::utf8::{encode_utf8, valid_utf8};

use crate::engine::KvsEngine;
use crate::error::{KvStoreError, Result};
use crate::protocol::{
    error_reply, error_reply_bytes, ok_reply, ok_reply_bytes, value_reply, value_reply_bytes,
    Request,
};

verus! {

/// The engine's answer to a request, as far as the reply tells it.
pub enum Outcome {
    /// A write, or a removal of a key that was there.
    Done,
    /// A read, with the value when the key is there.
    Value(Option<String>),
    /// A removal that the engine refused, with its error.
    Refused(KvStoreError),
}

/// The reply bytes to an outcome: `+OK\r\n` for a success without value,
/// the value reply for a read, and `-ERR: ` then the error's message for a
/// refusal.
pub open spec fn outcome_reply(outcome: Outcome) -> Seq<u8> {
    match outcome {
        Outcome::Done => ok_reply_bytes(),
        Outcome::Value(v) => value_reply_bytes(
            match v {
                Some(s) => Some(encode_utf8(s@)),
                None => None,
            },
        ),
        Outcome::Refused(e) => error_reply_bytes(encode_utf8(e.message_text())),
    }
}

/// The reply to `outcome`.
pub fn reply(outcome: &Outcome) -> (bytes: Vec<u8>)
    ensures
        bytes@ == outcome_reply(*outcome),
{
    match outcome {
        Outcome::Done => ok_reply(),
        Outcome::Value(v) => value_reply(v),
        Outcome::Refused(e) => error_reply(&e.message()),
    }
}

/// The reply bytes to a removal that the engine answered with `r`: `+OK`
/// on success, `-ERR: ` and the error's message otherwise.
pub open spec fn remove_reply_bytes(r: Result<()>) -> Seq<u8> {
    match r {
        Ok(_) => ok_reply_bytes(),
        Err(e) => outcome_reply(Outcome::Refused(e)),
    }
}

/// The reply to a removal that the engine answered with `r`.
pub fn remove_reply(r: &Result<()>) -> (bytes: Vec<u8>)
    ensures
        bytes@ == remove_reply_bytes(*r),
{
    match r {
        Ok(()) => reply(&Outcome::Done),
        Err(e) => error_reply(&e.message()),
    }
}

/// What the engine answered to a request.
pub enum EngineAnswer {
    /// A shutdown: the engine was not asked.
    Stopped,
    /// The answer to a write.
    Written(Result<()>),
    /// The answer to a read.
    Read(Result<Option<String>>),
    /// The answer to a removal.
    Removed(Result<()>),
}

/// Hands `request` to `engine`: `SET` to `set` with its key and value, `GET`
/// to `get` with its key, `RM` to `remove` with its key; a `SHUTDOWN` leaves
/// the engine alone. Returns what the engine answered. For an engine that
/// states its methods over its model, says what that answer means for the
/// model.
pub fn handle_request<E: KvsEngine>(engine: &mut E, request: Request) -> (answer: EngineAnswer)
    ensures
        match request {
            Request::Shutdown => answer is Stopped && *final(engine) == *old(engine),
            Request::SetValue(k, v) => answer matches EngineAnswer::Written(r) && (E::obeys_model()
                && r is Ok ==> final(engine).model() == old(engine).model().insert(
                encode_utf8(k@),
                encode_utf8(v@),
            )) && (E::obeys_model() ==> (r matches Err(e) ==> E::engine_failure(e))),
            Request::GetValue(k) => answer matches EngineAnswer::Read(r) && (E::obeys_model() ==> (
            r matches Err(e) ==> E::engine_failure(e) || (e == KvStoreError::Utf8 && old(
                engine,
            ).model().contains_key(encode_utf8(k@)) && !valid_utf8(
                old(engine).model()[encode_utf8(k@)],
            )))) && (E::obeys_model() ==> (
            r matches Ok(val) ==> final(engine).model() == old(engine).model() && match val {
                Some(s) => old(engine).model().contains_key(encode_utf8(k@))
                    && old(engine).model()[encode_utf8(k@)] == encode_utf8(s@),
                None => !old(engine).model().contains_key(encode_utf8(k@)),
            })),
            Request::RemoveKey(k) => answer matches EngineAnswer::Removed(r) && (E::obeys_model()
                ==> (r matches Err(e) ==> E::engine_failure(e) || (e == KvStoreError::KeyNotFound
                && !old(engine).model().contains_key(encode_utf8(k@))))) && (E::obeys_model()
                && r is Ok ==> old(engine).model().contains_key(encode_utf8(k@))
                && final(engine).model() == old(engine).model().remove(encode_utf8(k@))) && (
            E::obeys_model() && !old(engine).model().contains_key(encode_utf8(k@)) ==> r is Err),
        },
{
    match request {
        Request::SetValue(key, value) => EngineAnswer::Written(engine.set(key, value)),
        Request::GetValue(key) => EngineAnswer::Read(engine.get(key)),
        Request::RemoveKey(key) => EngineAnswer::Removed(engine.remove(key)),
        Request::Shutdown => EngineAnswer::Stopped,
    }
}

/// The reply to the engine's answer: nothing after a shutdown; `+OK` after
/// a write; the value reply after a read; `remove_reply` after a removal.
/// A write or a read that the engine failed is an error of the server,
/// with the engine's error.
pub fn answer_reply(answer: EngineAnswer) -> (reply: Result<Option<Vec<u8>>>)
    ensures
        match answer {
            EngineAnswer::Stopped => reply matches Ok(None),
            EngineAnswer::Written(Ok(_)) => reply matches Ok(Some(b)) && b@ == ok_reply_bytes(),
            EngineAnswer::Written(Err(e)) => reply matches Err(e2) && e2 == e,
            EngineAnswer::Read(Ok(v)) => reply matches Ok(Some(b)) && b@ == outcome_reply(
                Outcome::Value(v),
            ),
            EngineAnswer::Read(Err(e)) => reply matches Err(e2) && e2 == e,
            EngineAnswer::Removed(r) => reply matches Ok(Some(b)) && b@ == remove_reply_bytes(r),
        },
{
    match answer {
        EngineAnswer::Stopped => Ok(None),
        EngineAnswer::Written(Ok(())) => Ok(Some(reply(&Outcome::Done))),
        EngineAnswer::Written(Err(e)) => Err(e),
        EngineAnswer::Read(Ok(v)) => Ok(Some(reply(&Outcome::Value(v)))),
        EngineAnswer::Read(Err(e)) => Err(e),
        EngineAnswer::Removed(r) => Ok(Some(remove_reply(&r))),
    }
}

} // verus!
