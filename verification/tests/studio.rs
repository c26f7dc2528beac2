use novadb::error::NovaError;
use novadb::studio::{demo_response, validate_execute_request, validate_timeout, CommandError, ExecuteRequest, MAX_TIMEOUT_MILLIS};

fn request(query: &str, timeout_millis: u64, maximum_response_bytes: usize) -> ExecuteRequest {
    ExecuteRequest {
        address: "127.0.0.1:1".to_owned(),
        token: None,
        query: query.to_owned(),
        timeout_millis,
        maximum_response_bytes,
    }
}

#[test]
fn validation_rejects_unbounded_requests() {
    assert!(validate_timeout(0).is_err());
    assert!(validate_timeout(MAX_TIMEOUT_MILLIS + 1).is_err());
    let request = ExecuteRequest {
        address: "127.0.0.1:1".to_owned(),
        token: None,
        query: String::new(),
        timeout_millis: 1,
        maximum_response_bytes: 1,
    };
    assert!(validate_execute_request(&request).is_err());
}

#[test]
fn each_request_check_reports_its_own_message() {
    assert!(validate_timeout(1).is_ok());
    assert!(validate_timeout(MAX_TIMEOUT_MILLIS).is_ok());
    let blank = validate_execute_request(&request(" \t\n", 10, 10)).unwrap_err();
    assert_eq!(blank.kind, "InvalidArgument");
    assert_eq!(blank.message, "NovaQL query cannot be empty");
    let long = "x".repeat(1_048_577);
    let too_long = validate_execute_request(&request(&long, 10, 10)).unwrap_err();
    assert_eq!(too_long.message, "NovaQL query exceeds 1048576 bytes");
    let limit = validate_execute_request(&request("students.get {}", 10, 0)).unwrap_err();
    assert_eq!(limit.message, "response limit must be between 1 and 16777216 bytes");
    let timeout = validate_execute_request(&request("students.get {}", 0, 10)).unwrap_err();
    assert_eq!(timeout.message, "timeout must be between 1 and 60000 milliseconds");
    assert!(validate_execute_request(&request("students.get {}", 10, 10)).is_ok());
}

#[test]
fn errors_map_to_interface_kinds() {
    let error = CommandError::from(NovaError::Corruption("bad frame".to_owned()));
    assert_eq!(error.kind, "Protocol");
    assert_eq!(error.message, "corruption: bad frame");
    assert_eq!(CommandError::from(NovaError::Timeout).kind, "Timeout");
    assert_eq!(CommandError::internal("x".to_owned()).kind, "Internal");
    let demo = demo_response("127.0.0.1:9");
    assert_eq!(demo.mode, "demo");
    assert_eq!(demo.address, "127.0.0.1:9");
}
