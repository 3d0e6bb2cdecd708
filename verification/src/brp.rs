//! Remote control of a running game over JSON-RPC 2.0: request validation and
//! the protocol's names and constants.
use vstd::prelude::*;
use crate::text::{owned, str_eq};

pub mod methods;

verus! {

/// A JSON-RPC request; `P` is the type of its parameters.
#[derive(Clone, Debug, PartialEq)]
pub struct RpcRequest<P> {
    pub jsonrpc: String,
    pub id: u64,
    pub method: String,
    pub params: P,
}

/// A JSON-RPC response; `R` is the type of its result.
#[derive(Clone, Debug, PartialEq)]
pub struct RpcResponse<R> {
    pub jsonrpc: String,
    pub id: u64,
    pub result: Option<R>,
    pub error: Option<RpcError>,
}

/// A JSON-RPC error.
#[derive(Clone, Debug, PartialEq)]
pub struct RpcError {
    pub code: i32,
    pub message: String,
}

/// The JSON-RPC code for an invalid request.
pub const INVALID_REQUEST: i32 = -32600;

/// The error `validate_request` gives for a request, if any: the version must
/// be exactly `2.0`, then the method must not be empty.
pub open spec fn request_error(jsonrpc: Seq<char>, method: Seq<char>) -> Option<Seq<char>> {
    if jsonrpc != "2.0"@ {
        Some("Invalid Request: jsonrpc must be '2.0'"@)
    } else if method.len() == 0 {
        Some("Invalid Request: method is required"@)
    } else {
        None
    }
}

/// Checks the version and the method of a request.
pub fn validate_request<P>(req: &RpcRequest<P>) -> (r: Result<(), RpcError>)
    ensures
        match request_error(req.jsonrpc@, req.method@) {
            None => r is Ok,
            Some(m) => r matches Err(e) && e.code == INVALID_REQUEST && e.message@ == m,
        },
{
    if !str_eq(req.jsonrpc.as_str(), "2.0") {
        return Err(
            RpcError {
                code: INVALID_REQUEST,
                message: owned("Invalid Request: jsonrpc must be '2.0'"),
            },
        );
    }
    if req.method.as_str().is_empty() {
        return Err(
            RpcError { code: INVALID_REQUEST, message: owned("Invalid Request: method is required") },
        );
    }
    Ok(())
}

/// The answer to a `bevy/query` request: version 2.0, id 1, the entities with
/// the names of their components as the result, and no error.
pub fn build_query_response(entities: Vec<(u64, Vec<String>)>) -> (r: RpcResponse<
    Vec<(u64, Vec<String>)>,
>)
    ensures
        r.jsonrpc@ == "2.0"@,
        r.id == 1,
        r.result == Some(entities),
        r.error is None,
{
    RpcResponse { jsonrpc: owned("2.0"), id: 1, result: Some(entities), error: None }
}

/// The HTTP path of the remote protocol.
pub const BRP_ENDPOINT: &'static str = "/bevy/api";

/// The port the remote protocol listens on by default.
pub const DEFAULT_PORT: u16 = 15702;

} // verus!
