use mg_vault::error::Error;
use mg_vault::protocol::{
    encode_frame, frame_length, hello_outcome, hello_request, status_outcome, status_request,
    validate_response_id, validate_response_shape, ClientError, Operation, ProtocolError, Response,
    ResponseData, ServiceStatus, MAX_FRAME_BYTES, PROTOCOL_VERSION,
};
use mg_vault::service::{
    authorize_uid, check_endpoint, error_response, hello_reply, request_action, status_reply,
    HelloReply, RequestAction, ServiceError, SERVICE_VERSION,
};

fn ok_response(id: &str, data: ResponseData) -> Response {
    Response {
        protocol_version: PROTOCOL_VERSION,
        request_id: id.to_owned(),
        ok: true,
        service_version: "0.1.0".to_owned(),
        data: Some(data),
        error: None,
    }
}

#[test]
fn peer_uid_mismatch_is_rejected() {
    let error = authorize_uid(1000, 1001).unwrap_err();
    assert!(error.message().contains("does not match"));
}

#[test]
fn same_uid_is_authorized() {
    assert_eq!(authorize_uid(7, 7), Ok(()));
    assert_eq!(
        authorize_uid(1000, 1001).unwrap_err().message(),
        "service peer UID 1001 does not match owner UID 1000"
    );
}

#[test]
fn framing_round_trips_and_preserves_request_id() {
    let mut operation = serde_json::Map::new();
    operation.insert("type".to_owned(), serde_json::Value::from("service_status"));
    let mut request = serde_json::Map::new();
    request.insert("protocol_version".to_owned(), serde_json::Value::from(1));
    request.insert("request_id".to_owned(), serde_json::Value::from("req-7"));
    request.insert("operation".to_owned(), serde_json::Value::Object(operation));
    let request = serde_json::Value::Object(request);

    let payload = serde_json::to_vec(&request).unwrap();
    let frame = encode_frame(&payload).unwrap();
    let length = frame_length([frame[0], frame[1], frame[2], frame[3]]).unwrap();
    let decoded: serde_json::Value = serde_json::from_slice(&frame[4..4 + length]).unwrap();
    assert_eq!(decoded, request);
}

#[test]
fn oversized_declared_frame_is_rejected_before_payload_read() {
    let length = u32::try_from(MAX_FRAME_BYTES + 1).unwrap();
    let error = frame_length(length.to_be_bytes()).unwrap_err();
    assert!(matches!(error, ClientError::FrameTooLarge { .. }));
}

#[test]
fn frames_are_length_prefixed_big_endian() {
    assert_eq!(encode_frame(b"abc").unwrap(), vec![0, 0, 0, 3, b'a', b'b', b'c']);
    assert_eq!(frame_length([0, 0, 1, 2]), Ok(258));
    assert_eq!(frame_length([0, 16, 0, 0]), Ok(MAX_FRAME_BYTES));
    let big = vec![0u8; MAX_FRAME_BYTES + 1];
    assert_eq!(
        encode_frame(&big),
        Err(ClientError::FrameTooLarge { length: MAX_FRAME_BYTES + 1, limit: MAX_FRAME_BYTES })
    );
    assert_eq!(
        ClientError::FrameTooLarge { length: 5, limit: 4 }.message(),
        "IPC frame length 5 exceeds limit 4"
    );
}

#[test]
fn responses_must_match_request_version_and_shape() {
    let good = ok_response("r1", ResponseData::Hello { selected_version: 1 });
    assert_eq!(validate_response_id(&good, "r1"), Ok(()));
    assert_eq!(
        validate_response_id(&good, "r2"),
        Err(ClientError::InvalidResponse("request ID mismatch: expected \"r2\", received \"r1\"".to_owned()))
    );
    assert_eq!(validate_response_shape(&good, 1), Ok(()));
    assert_eq!(
        validate_response_shape(&good, 2),
        Err(ClientError::InvalidResponse("protocol version mismatch: expected 2, received 1".to_owned()))
    );
    let mut inconsistent = good.clone();
    inconsistent.data = None;
    assert_eq!(
        validate_response_shape(&inconsistent, 1),
        Err(ClientError::InvalidResponse("response status and payload are inconsistent".to_owned()))
    );
    let mut unnamed = good.clone();
    unnamed.service_version = String::new();
    assert!(validate_response_shape(&unnamed, 1).is_err());
}

#[test]
fn hello_negotiates_an_offered_version() {
    let request = hello_request("h".to_owned(), &[1, 2]);
    assert_eq!(request.protocol_version, 0);
    assert_eq!(
        request.operation,
        Operation::Hello { client_versions: vec![1, 2], capabilities: Vec::new() }
    );
    let answer = ok_response("h", ResponseData::Hello { selected_version: 1 });
    assert_eq!(hello_outcome(answer.clone(), "h", &[1]), Ok((1, "0.1.0".to_owned())));
    assert_eq!(
        hello_outcome(answer, "h", &[3]),
        Err(ClientError::InvalidResponse("server selected unsupported protocol 1".to_owned()))
    );
    let refused = error_response("h".to_owned(), "protocol_incompatible", "no supported protocol version overlap");
    assert_eq!(
        hello_outcome(refused, "h", &[99]),
        Err(ClientError::Protocol {
            code: "protocol_incompatible".to_owned(),
            message: "no supported protocol version overlap".to_owned(),
        })
    );
    let wrong = ok_response("h", ResponseData::ServiceStatus(ServiceStatus { state: "x".to_owned(), registered_vaults: 0 }));
    assert_eq!(
        hello_outcome(wrong, "h", &[1]),
        Err(ClientError::InvalidResponse("hello response did not contain negotiation data".to_owned()))
    );
}

#[test]
fn status_requests_yield_the_service_status() {
    let request = status_request(1, "s".to_owned());
    assert_eq!(request.operation, Operation::ServiceStatus);
    let answer = status_reply("s".to_owned(), 3);
    assert_eq!(
        status_outcome(answer, "s", 1),
        Ok(ServiceStatus { state: "available".to_owned(), registered_vaults: 3 })
    );
    let hello = ok_response("s", ResponseData::Hello { selected_version: 1 });
    assert_eq!(
        status_outcome(hello, "s", 1),
        Err(ClientError::InvalidResponse("status response did not contain service status".to_owned()))
    );
}

#[test]
fn the_service_answers_a_connection_in_order() {
    let hello = hello_request("h".to_owned(), &[1]);
    match hello_reply(hello) {
        HelloReply::Accepted(response) => {
            assert!(response.ok);
            assert_eq!(response.data, Some(ResponseData::Hello { selected_version: PROTOCOL_VERSION }));
            assert_eq!(response.service_version, SERVICE_VERSION);
        }
        HelloReply::Refused(_) => panic!("hello refused"),
    }
    match hello_reply(hello_request("old".to_owned(), &[99])) {
        HelloReply::Refused(response) => assert_eq!(
            response.error,
            Some(ProtocolError {
                code: "protocol_incompatible".to_owned(),
                message: "no supported protocol version overlap".to_owned(),
            })
        ),
        HelloReply::Accepted(_) => panic!("incompatible hello accepted"),
    }
    match hello_reply(status_request(1, "early".to_owned())) {
        HelloReply::Refused(response) => {
            assert_eq!(response.error.unwrap().code, "handshake_required");
        }
        HelloReply::Accepted(_) => panic!("status accepted as hello"),
    }
    assert!(matches!(request_action(status_request(1, "s".to_owned())), RequestAction::ReportStatus(id) if id == "s"));
    match request_action(status_request(2, "s".to_owned())) {
        RequestAction::Reply(response) => assert_eq!(response.error.unwrap().code, "protocol_incompatible"),
        RequestAction::ReportStatus(_) => panic!("wrong protocol accepted"),
    }
    match request_action(hello_request("again".to_owned(), &[1]).with_version(1)) {
        RequestAction::Reply(response) => assert_eq!(response.error.unwrap().code, "unexpected_hello"),
        RequestAction::ReportStatus(_) => panic!("second hello accepted"),
    }
}

trait WithVersion {
    fn with_version(self, version: u16) -> Self;
}

impl WithVersion for mg_vault::protocol::Request {
    fn with_version(mut self, version: u16) -> Self {
        self.protocol_version = version;
        self
    }
}

#[test]
fn endpoints_inside_vaults_or_without_parent_are_refused() {
    let vaults = vec![b"/home/u/vault".to_vec()];
    assert_eq!(check_endpoint(b"/run/user/1/mg-vault/indexd.sock", &vaults), Ok(()));
    assert_eq!(
        check_endpoint(b"/home/u/vault/indexd.sock", &vaults),
        Err(ServiceError::UnsafeRuntime {
            path: b"/home/u/vault/indexd.sock".to_vec(),
            reason: "service endpoint must be outside every vault".to_owned(),
        })
    );
    assert!(check_endpoint(b"/home/u/vault-other/indexd.sock", &vaults).is_ok());
    assert_eq!(
        check_endpoint(b"/", &[]),
        Err(ServiceError::UnsafeRuntime { path: b"/".to_vec(), reason: "socket path has no parent".to_owned() })
    );
}

#[test]
fn service_errors_print_their_cause() {
    assert_eq!(
        ServiceError::Registry(Error::NoVaultSelected).message(),
        "service registry error: no vault is selected"
    );
    assert_eq!(
        ServiceError::Protocol(ClientError::InvalidResponse("x".to_owned())).message(),
        "service protocol error: invalid IPC response: x"
    );
}

#[test]
fn client_accepts_what_the_service_replies() {
    let reply = match hello_reply(hello_request("h-1".to_owned(), &[3, PROTOCOL_VERSION])) {
        HelloReply::Accepted(response) => response,
        HelloReply::Refused(_) => panic!("hello refused"),
    };
    assert_eq!(
        hello_outcome(reply, "h-1", &[3, PROTOCOL_VERSION]),
        Ok((PROTOCOL_VERSION, SERVICE_VERSION.to_owned()))
    );
    let status = status_reply("s-1".to_owned(), 2);
    assert_eq!(
        status_outcome(status, "s-1", PROTOCOL_VERSION),
        Ok(ServiceStatus { state: "available".to_owned(), registered_vaults: 2 })
    );
}
