//! The result classifier: turns a call's outcome envelope into a typed
//! value, a remote failure, or a decode failure.

use vstd::prelude::*;
use crate::codec::{extract_value, DecodeError};
use crate::types::{Value, ValueType};
use crate::wire::dec;

verus! {

/// A structured error reported by the remote side: the schema's error
/// descriptor fields.
#[derive(Debug, PartialEq)]
pub struct RemoteError {
    pub service: String,
    pub name: String,
    pub description: String,
    pub stack_trace: String,
}

/// The outcome of one procedure: an error descriptor, or an opaque success
/// payload to be decoded against the caller's chosen shape.
#[derive(Debug, PartialEq)]
pub struct ProcedureResult {
    pub error: Option<RemoteError>,
    pub value: Vec<u8>,
}

/// A whole call's outcome: its procedure results, and an optional
/// top-level failure that supersedes them all.
#[derive(Debug, PartialEq)]
pub struct Response {
    pub error: Option<RemoteError>,
    pub results: Vec<ProcedureResult>,
}

/// Why a call yielded no value: the remote side reported a failure, or a
/// superficially successful response could not be decoded.
#[derive(Debug, PartialEq)]
pub enum RPCFailure {
    ProcFailure(RemoteError),
    DecodeFailure(DecodeError),
}

/// Classifies one procedure result: a carried error is returned as a
/// remote failure; otherwise the payload is decoded as shape `t`, and a
/// malformed payload is a decode failure, distinct from a remote one.
pub fn extract_result(t: &ValueType, proc_result: ProcedureResult) -> (r: Result<
    Value,
    RPCFailure,
>)
    ensures
        match proc_result.error {
            Some(e) => r matches Err(RPCFailure::ProcFailure(e2)) && e2 == e,
            None => match dec(*t, proc_result.value@) {
                Option::Some((vm, _used)) => r matches Ok(v) && v@ == vm,
                Option::None => r == Result::<Value, RPCFailure>::Err(
                    RPCFailure::DecodeFailure(DecodeError::Malformed),
                ),
            },
        },
{
    match proc_result.error {
        Some(e) => Err(RPCFailure::ProcFailure(e)),
        None => match extract_value(t, proc_result.value.as_slice()) {
            Ok(v) => Ok(v),
            Err(e) => Err(RPCFailure::DecodeFailure(e)),
        },
    }
}

/// Classifies a call response.  A top-level failure is returned at once
/// and takes priority over any per-result content; otherwise the first
/// procedure result is classified as by [`extract_result`].
pub fn extract_single_result(t: &ValueType, response: Response) -> (r: Result<Value, RPCFailure>)
    requires
        response.error is None ==> response.results@.len() >= 1,
    ensures
        match response.error {
            Some(e) => r matches Err(RPCFailure::ProcFailure(e2)) && e2 == e,
            None => match response.results@[0].error {
                Some(e) => r matches Err(RPCFailure::ProcFailure(e2)) && e2 == e,
                None => match dec(*t, response.results@[0].value@) {
                    Option::Some((vm, _used)) => r matches Ok(v) && v@ == vm,
                    Option::None => r == Result::<Value, RPCFailure>::Err(
                        RPCFailure::DecodeFailure(DecodeError::Malformed),
                    ),
                },
            },
        },
{
    match response.error {
        Some(e) => Err(RPCFailure::ProcFailure(e)),
        None => {
            let mut results = response.results;
            let first = results.remove(0);
            extract_result(t, first)
        },
    }
}

} // verus!
