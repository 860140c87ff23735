//! The local IPC protocol of the index service: its messages, the checks a
//! client makes on a response, and the length-prefixed frames that carry
//! serialized messages. Sockets and serialization belong to the caller.

use vstd::prelude::*;
use crate::text::{debug_text, debug_text_of, decimal, decimal_text};

verus! {

pub const PROTOCOL_VERSION: u16 = 1;

/// The largest payload a frame may declare.
pub const MAX_FRAME_BYTES: usize = 1048576;

#[derive(Clone, Debug, PartialEq, Eq)]
pub struct Request {
    pub protocol_version: u16,
    pub request_id: String,
    pub operation: Operation,
}

#[derive(Clone, Debug, PartialEq, Eq)]
pub enum Operation {
    Hello { client_versions: Vec<u16>, capabilities: Vec<String> },
    ServiceStatus,
}

#[derive(Clone, Debug, PartialEq, Eq)]
pub struct Response {
    pub protocol_version: u16,
    pub request_id: String,
    pub ok: bool,
    pub service_version: String,
    pub data: Option<ResponseData>,
    pub error: Option<ProtocolError>,
}

#[derive(Clone, Debug, PartialEq, Eq)]
pub enum ResponseData {
    Hello { selected_version: u16 },
    ServiceStatus(ServiceStatus),
}

#[derive(Clone, Debug, PartialEq, Eq)]
pub struct ServiceStatus {
    pub state: String,
    pub registered_vaults: u64,
}

#[derive(Clone, Debug, PartialEq, Eq)]
pub struct ProtocolError {
    pub code: String,
    pub message: String,
}

/// The protocol failures a client reports; transport and serialization failures
/// belong to the code that performs them.
#[derive(Clone, Debug, PartialEq, Eq)]
pub enum ClientError {
    FrameTooLarge { length: usize, limit: usize },
    Protocol { code: String, message: String },
    InvalidResponse(String),
}

pub open spec fn client_error_text(e: ClientError) -> Seq<char> {
    match e {
        ClientError::FrameTooLarge { length, limit } => "IPC frame length "@ + decimal_text(length as nat)
            + " exceeds limit "@ + decimal_text(limit as nat),
        ClientError::Protocol { code, message } => "IPC protocol error "@ + code@ + ": "@ + message@,
        ClientError::InvalidResponse(m) => "invalid IPC response: "@ + m@,
    }
}

impl ClientError {
    /// The display text of the error.
    pub fn message(&self) -> (r: String)
        ensures
            r@ == client_error_text(*self),
    {
        match self {
            ClientError::FrameTooLarge { length, limit } => {
                let mut m = "IPC frame length ".to_owned();
                let a = decimal(*length as u64);
                m.append(a.as_str());
                m.append(" exceeds limit ");
                let b = decimal(*limit as u64);
                m.append(b.as_str());
                m
            },
            ClientError::Protocol { code, message } => {
                let mut m = "IPC protocol error ".to_owned();
                m.append(code.as_str());
                m.append(": ");
                m.append(message.as_str());
                m
            },
            ClientError::InvalidResponse(detail) => {
                let mut m = "invalid IPC response: ".to_owned();
                m.append(detail.as_str());
                m
            },
        }
    }
}

pub open spec fn id_mismatch_text(expected: Seq<char>, received: Seq<char>) -> Seq<char> {
    "request ID mismatch: expected "@ + debug_text_of(expected) + ", received "@ + debug_text_of(received)
}

/// A response must answer the request it was sent for.
pub fn validate_response_id(response: &Response, expected: &str) -> (r: Result<(), ClientError>)
    ensures
        r is Ok <==> response.request_id@ == expected@,
        r matches Err(e) ==> e matches ClientError::InvalidResponse(m)
            && m@ == id_mismatch_text(expected@, response.request_id@),
{
    if crate::text::same_text(response.request_id.as_str(), expected) {
        Ok(())
    } else {
        let mut m = "request ID mismatch: expected ".to_owned();
        let a = debug_text(expected);
        m.append(a.as_str());
        m.append(", received ");
        let b = debug_text(response.request_id.as_str());
        m.append(b.as_str());
        Err(ClientError::InvalidResponse(m))
    }
}

/// A response is inconsistent when it names no service version, or when its
/// status disagrees with its payload: `ok` with an error or without data, or a
/// failure without an error or with data.
pub open spec fn inconsistent_response(r: Response) -> bool {
    r.service_version@.len() == 0 || r.ok == (r.error is Some) || (r.ok && r.data is None) || (!r.ok && r.data is Some)
}

pub open spec fn version_mismatch_text(expected: u16, received: u16) -> Seq<char> {
    "protocol version mismatch: expected "@ + decimal_text(expected as nat) + ", received "@
        + decimal_text(received as nat)
}

pub open spec fn inconsistent_text() -> Seq<char> {
    "response status and payload are inconsistent"@
}

/// A response must carry the expected protocol version and a consistent status.
pub fn validate_response_shape(response: &Response, expected_version: u16) -> (r: Result<(), ClientError>)
    ensures
        if response.protocol_version != expected_version {
            r matches Err(ClientError::InvalidResponse(m))
                && m@ == version_mismatch_text(expected_version, response.protocol_version)
        } else if inconsistent_response(*response) {
            r matches Err(ClientError::InvalidResponse(m)) && m@ == inconsistent_text()
        } else {
            r is Ok
        },
{
    if response.protocol_version != expected_version {
        let mut m = "protocol version mismatch: expected ".to_owned();
        let a = decimal(expected_version as u64);
        m.append(a.as_str());
        m.append(", received ");
        let b = decimal(response.protocol_version as u64);
        m.append(b.as_str());
        return Err(ClientError::InvalidResponse(m));
    }
    let has_error = response.error.is_some();
    let has_data = response.data.is_some();
    if response.service_version.as_str().is_empty() || response.ok == has_error || (response.ok && !has_data)
        || (!response.ok && has_data) {
        return Err(ClientError::InvalidResponse("response status and payload are inconsistent".to_owned()));
    }
    Ok(())
}


fn copy_versions(v: &[u16]) -> (r: Vec<u16>)
    ensures
        r@ == v@,
{
    let mut out: Vec<u16> = Vec::new();
    let mut i: usize = 0;
    while i < v.len()
        invariant
            i <= v@.len(),
            out@ == v@.take(i as int),
        decreases v@.len() - i,
    {
        out.push(v[i]);
        assert(out@ =~= v@.take(i + 1));
        i = i + 1;
    }
    assert(v@.take(v@.len() as int) =~= v@);
    out
}

/// The opening request of a connection: protocol version 0, offering the
/// supported versions and no capabilities.
pub fn hello_request(request_id: String, supported_versions: &[u16]) -> (r: Request)
    ensures
        r.protocol_version == 0,
        r.request_id@ == request_id@,
        r.operation matches Operation::Hello { client_versions, capabilities }
            && client_versions@ == supported_versions@ && capabilities@.len() == 0,
{
    Request {
        protocol_version: 0,
        request_id,
        operation: Operation::Hello { client_versions: copy_versions(supported_versions), capabilities: Vec::new() },
    }
}

/// A status request under the negotiated protocol version.
pub fn status_request(negotiated_version: u16, request_id: String) -> (r: Request)
    ensures
        r.protocol_version == negotiated_version,
        r.request_id@ == request_id@,
        r.operation is ServiceStatus,
{
    Request { protocol_version: negotiated_version, request_id, operation: Operation::ServiceStatus }
}

pub open spec fn unsupported_selection_text(selected: u16) -> Seq<char> {
    "server selected unsupported protocol "@ + decimal_text(selected as nat)
}

/// The error of a response that passed the shape and id checks but reports a failure.
pub open spec fn reported_error(response: Response) -> Option<ClientError> {
    match response.error {
        Some(e) => Some(ClientError::Protocol { code: e.code, message: e.message }),
        None => None,
    }
}

pub open spec fn client_error_view(e: ClientError) -> (int, Seq<char>, Seq<char>, nat, nat) {
    match e {
        ClientError::FrameTooLarge { length, limit } => (0, Seq::empty(), Seq::empty(), length as nat, limit as nat),
        ClientError::Protocol { code, message } => (1, code@, message@, 0, 0),
        ClientError::InvalidResponse(m) => (2, m@, Seq::empty(), 0, 0),
    }
}

/// A hello answer the client accepts: the current protocol version, a consistent
/// shape, this request's id, no error, and negotiation data naming an offered version.
pub open spec fn hello_ok(response: Response, request_id: Seq<char>, versions: Seq<u16>) -> bool {
    &&& response.protocol_version == PROTOCOL_VERSION
    &&& !inconsistent_response(response)
    &&& response.request_id@ == request_id
    &&& response.error is None
    &&& response.data matches Some(ResponseData::Hello { selected_version }) && versions.contains(selected_version)
}

/// A status answer the client accepts under the negotiated version.
pub open spec fn status_ok(response: Response, request_id: Seq<char>, negotiated_version: u16) -> bool {
    &&& response.protocol_version == negotiated_version
    &&& !inconsistent_response(response)
    &&& response.request_id@ == request_id
    &&& response.error is None
    &&& response.data matches Some(ResponseData::ServiceStatus(_))
}

/// What a client makes of the answer to its hello: the response must have the
/// current protocol version and a consistent shape and answer this request; a
/// reported error is passed on; otherwise it must hold negotiation data naming
/// a version the client offered. The result is the negotiated version and the
/// service version.
pub fn hello_outcome(response: Response, request_id: &str, supported_versions: &[u16]) -> (r: Result<(u16, String), ClientError>)
    ensures
        r is Ok <==> hello_ok(response, request_id@, supported_versions@),
        if response.protocol_version != PROTOCOL_VERSION {
            r matches Err(ClientError::InvalidResponse(m)) && m@ == version_mismatch_text(PROTOCOL_VERSION, response.protocol_version)
        } else if inconsistent_response(response) {
            r matches Err(ClientError::InvalidResponse(m)) && m@ == inconsistent_text()
        } else if response.request_id@ != request_id@ {
            r matches Err(ClientError::InvalidResponse(m)) && m@ == id_mismatch_text(request_id@, response.request_id@)
        } else if response.error is Some {
            r matches Err(e) && client_error_view(e) == client_error_view(reported_error(response)->0)
        } else {
            match response.data {
                Some(ResponseData::Hello { selected_version }) => if supported_versions@.contains(selected_version) {
                    r matches Ok(p) && p.0 == selected_version && p.1@ == response.service_version@
                } else {
                    r matches Err(ClientError::InvalidResponse(m)) && m@ == unsupported_selection_text(selected_version)
                },
                _ => r matches Err(ClientError::InvalidResponse(m))
                    && m@ == "hello response did not contain negotiation data"@,
            }
        },
{
    validate_response_shape(&response, PROTOCOL_VERSION)?;
    validate_response_id(&response, request_id)?;
    if let Some(error) = response.error {
        return Err(ClientError::Protocol { code: error.code, message: error.message });
    }
    let selected = match response.data {
        Some(ResponseData::Hello { selected_version }) => selected_version,
        _ => return Err(ClientError::InvalidResponse("hello response did not contain negotiation data".to_owned())),
    };
    let mut i: usize = 0;
    let mut offered = false;
    while i < supported_versions.len()
        invariant
            i <= supported_versions@.len(),
            offered == (exists|k: int| 0 <= k < i && supported_versions@[k] == selected),
        decreases supported_versions@.len() - i,
    {
        if supported_versions[i] == selected {
            offered = true;
        }
        i = i + 1;
    }
    if !offered {
        let mut m = "server selected unsupported protocol ".to_owned();
        let d = decimal(selected as u64);
        m.append(d.as_str());
        return Err(ClientError::InvalidResponse(m));
    }
    Ok((selected, response.service_version))
}

/// What a client makes of the answer to a status request: the same shape, id and
/// error checks under the negotiated version, then the service status it holds.
pub fn status_outcome(response: Response, request_id: &str, negotiated_version: u16) -> (r: Result<ServiceStatus, ClientError>)
    ensures
        r is Ok <==> status_ok(response, request_id@, negotiated_version),
        if response.protocol_version != negotiated_version {
            r matches Err(ClientError::InvalidResponse(m)) && m@ == version_mismatch_text(negotiated_version, response.protocol_version)
        } else if inconsistent_response(response) {
            r matches Err(ClientError::InvalidResponse(m)) && m@ == inconsistent_text()
        } else if response.request_id@ != request_id@ {
            r matches Err(ClientError::InvalidResponse(m)) && m@ == id_mismatch_text(request_id@, response.request_id@)
        } else if response.error is Some {
            r matches Err(e) && client_error_view(e) == client_error_view(reported_error(response)->0)
        } else {
            match response.data {
                Some(ResponseData::ServiceStatus(status)) => r matches Ok(s) && s.state@ == status.state@
                    && s.registered_vaults == status.registered_vaults,
                _ => r matches Err(ClientError::InvalidResponse(m))
                    && m@ == "status response did not contain service status"@,
            }
        },
{
    validate_response_shape(&response, negotiated_version)?;
    validate_response_id(&response, request_id)?;
    if let Some(error) = response.error {
        return Err(ClientError::Protocol { code: error.code, message: error.message });
    }
    match response.data {
        Some(ResponseData::ServiceStatus(status)) => Ok(status),
        _ => Err(ClientError::InvalidResponse("status response did not contain service status".to_owned())),
    }
}

/// The four big-endian bytes of a frame length.
pub open spec fn be4(n: u32) -> Seq<u8> {
    seq![(n >> 24u32) as u8, (n >> 16u32) as u8, (n >> 8u32) as u8, n as u8]
}

/// The number four big-endian bytes name.
pub open spec fn be4_value(p: Seq<u8>) -> int {
    p[0] as int * 16777216 + p[1] as int * 65536 + p[2] as int * 256 + p[3] as int
}

/// A frame: the payload's length as four big-endian bytes, then the payload.
pub open spec fn frame_spec(payload: Seq<u8>) -> Seq<u8> {
    be4(payload.len() as u32) + payload
}

/// Frame a serialized message; a payload over the limit is refused.
pub fn encode_frame(payload: &[u8]) -> (r: Result<Vec<u8>, ClientError>)
    ensures
        payload@.len() > MAX_FRAME_BYTES ==> (r matches Err(ClientError::FrameTooLarge { length, limit })
            && length == payload@.len() && limit == MAX_FRAME_BYTES),
        payload@.len() <= MAX_FRAME_BYTES ==> (r matches Ok(f) && f@ == frame_spec(payload@)),
{
    if payload.len() > MAX_FRAME_BYTES {
        return Err(ClientError::FrameTooLarge { length: payload.len(), limit: MAX_FRAME_BYTES });
    }
    let n = payload.len() as u32;
    let mut out: Vec<u8> = Vec::new();
    out.push((n >> 24u32) as u8);
    out.push((n >> 16u32) as u8);
    out.push((n >> 8u32) as u8);
    out.push(n as u8);
    let mut i: usize = 0;
    while i < payload.len()
        invariant
            i <= payload@.len(),
            n == payload@.len() as u32,
            out@ == be4(n) + payload@.take(i as int),
        decreases payload@.len() - i,
    {
        out.push(payload[i]);
        assert(payload@.take(i + 1) =~= payload@.take(i as int).push(payload@[i as int]));
        i = i + 1;
    }
    assert(payload@.take(payload@.len() as int) =~= payload@);
    Ok(out)
}

/// The payload length a frame prefix declares; a declaration over the limit is
/// refused before any payload is read.
pub fn frame_length(prefix: [u8; 4]) -> (r: Result<usize, ClientError>)
    ensures
        be4_value(prefix@) > MAX_FRAME_BYTES ==> (r matches Err(ClientError::FrameTooLarge { length, limit })
            && length == be4_value(prefix@) && limit == MAX_FRAME_BYTES),
        be4_value(prefix@) <= MAX_FRAME_BYTES ==> (r matches Ok(n) && n == be4_value(prefix@)),
{
    let n: u64 = (prefix[0] as u64) * 16777216 + (prefix[1] as u64) * 65536 + (prefix[2] as u64) * 256 + (prefix[3] as u64);
    if n > MAX_FRAME_BYTES as u64 {
        return Err(ClientError::FrameTooLarge { length: n as usize, limit: MAX_FRAME_BYTES });
    }
    Ok(n as usize)
}

/// Law: the prefix of a frame declares the length of the payload it carries.
pub proof fn lemma_frame_round_trip(payload: Seq<u8>)
    requires
        payload.len() <= MAX_FRAME_BYTES,
    ensures
        frame_spec(payload).take(4).len() == 4,
        be4_value(frame_spec(payload).take(4)) == payload.len(),
        frame_spec(payload).skip(4) == payload,
{
    let f = frame_spec(payload);
    let n = payload.len() as u32;
    assert(f.take(4) =~= be4(n));
    assert(f.skip(4) =~= payload);
    assert((n >> 24u32) as u8 as int * 16777216 + (n >> 16u32) as u8 as int * 65536
        + (n >> 8u32) as u8 as int * 256 + n as u8 as int == n) by (bit_vector);
}

} // verus!
