use bevy_book::brp::{methods, validate_request, RpcError, RpcRequest, BRP_ENDPOINT, DEFAULT_PORT, INVALID_REQUEST};

#[test]
fn validate_valid_request() {
    let req = RpcRequest {
        jsonrpc: "2.0".to_string(),
        id: 1,
        method: methods::BEVY_QUERY.to_string(),
        params: (),
    };
    assert!(validate_request(&req).is_ok());
}

#[test]
fn validate_wrong_version() {
    let req = RpcRequest {
        jsonrpc: "1.0".to_string(),
        id: 1,
        method: "test".to_string(),
        params: (),
    };
    let result = validate_request(&req);
    assert!(result.is_err());
    assert_eq!(result.unwrap_err().code, -32600);
}

#[test]
fn validate_empty_method() {
    let req = RpcRequest {
        jsonrpc: "2.0".to_string(),
        id: 1,
        method: "".to_string(),
        params: (),
    };
    assert!(validate_request(&req).is_err());
}

#[test]
fn validate_messages_name_the_fault() {
    let bad_version = RpcRequest { jsonrpc: "2.1".to_string(), id: 7, method: "".to_string(), params: 0u8 };
    let err = validate_request(&bad_version).unwrap_err();
    assert_eq!(err.code, INVALID_REQUEST);
    assert_eq!(err.message, "Invalid Request: jsonrpc must be '2.0'");

    let no_method = RpcRequest { jsonrpc: "2.0".to_string(), id: 7, method: "".to_string(), params: 0u8 };
    let err = validate_request(&no_method).unwrap_err();
    assert_eq!(err.code, INVALID_REQUEST);
    assert_eq!(err.message, "Invalid Request: method is required");
}

#[test]
fn rpc_error_codes() {
    let err = RpcError {
        code: -32601,
        message: "Method not found".to_string(),
    };
    assert!(err.code < 0);
    assert!(!err.message.is_empty());
}

#[test]
fn brp_methods_are_namespaced() {
    assert!(methods::BEVY_QUERY.starts_with("bevy/"));
    assert!(methods::BEVY_LIST.starts_with("bevy/"));
}

#[test]
fn brp_endpoint_path() {
    assert!(BRP_ENDPOINT.starts_with("/"));
    assert!(BRP_ENDPOINT.contains("bevy"));
}

#[test]
fn default_port_is_valid() {
    assert!(DEFAULT_PORT > 1024, "Should use non-privileged port");
}

#[test]
fn build_query_response_envelope() {
    let entities = vec![
        (42, vec!["Health".to_string(), "Position".to_string()]),
        (99, vec!["Enemy".to_string()]),
    ];
    let response = bevy_book::brp::build_query_response(entities.clone());
    assert_eq!(response.jsonrpc, "2.0");
    assert_eq!(response.id, 1);
    assert!(response.error.is_none());
    assert_eq!(response.result, Some(entities));
}
