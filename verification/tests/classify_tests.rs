use rpc_codec::classify::{
    extract_result, extract_single_result, ProcedureResult, RemoteError, Response, RPCFailure,
};
use rpc_codec::codec::{encode_to_bytes, DecodeError};
use rpc_codec::types::{Value, ValueType};

fn remote_error(desc: &str) -> RemoteError {
    RemoteError {
        service: String::from("svc"),
        name: String::from("Boom"),
        description: String::from(desc),
        stack_trace: String::new(),
    }
}

#[test]
fn top_level_failure_takes_precedence() {
    let good_payload = encode_to_bytes(&Value::U32(42));
    let response = Response {
        error: Some(remote_error("whole call failed")),
        results: vec![ProcedureResult {
            error: None,
            value: good_payload,
        }],
    };
    let r = extract_single_result(&ValueType::U32, response);
    match r {
        Err(RPCFailure::ProcFailure(e)) => {
            assert_eq!(e.description, "whole call failed");
        }
        other => panic!("expected the top-level failure, got {:?}", other),
    }
}

#[test]
fn successful_result_decodes() {
    let response = Response {
        error: None,
        results: vec![ProcedureResult {
            error: None,
            value: encode_to_bytes(&Value::U32(42)),
        }],
    };
    assert_eq!(
        extract_single_result(&ValueType::U32, response),
        Ok(Value::U32(42))
    );
}

#[test]
fn per_result_failure_is_remote() {
    let pr = ProcedureResult {
        error: Some(remote_error("procedure failed")),
        value: Vec::new(),
    };
    match extract_result(&ValueType::U32, pr) {
        Err(RPCFailure::ProcFailure(e)) => assert_eq!(e.description, "procedure failed"),
        other => panic!("expected a remote failure, got {:?}", other),
    }
}

#[test]
fn malformed_payload_is_decode_failure() {
    let pr = ProcedureResult {
        error: None,
        value: vec![0x80],
    };
    assert_eq!(
        extract_result(&ValueType::U32, pr),
        Err(RPCFailure::DecodeFailure(DecodeError::Malformed))
    );
}
