//! The owner-only index service: who may connect, where its endpoint may be,
//! and how it answers each message of a connection. The socket, its
//! permissions and the registry file belong to the caller.

use vstd::prelude::*;
use crate::error::{Error, error_text};
use crate::paths::{path_starts_with, starts_with, components, root_component, path_components, views};
use crate::protocol::{ClientError, client_error_text, Operation, ProtocolError, Request, Response,
    ResponseData, ServiceStatus, PROTOCOL_VERSION, hello_ok, status_ok, inconsistent_response};
use crate::text::{decimal, decimal_text, lossy_text, lossy_text_of};

verus! {

/// The version the service reports in every response.
pub const SERVICE_VERSION: &'static str = "0.1.0";

/// Failures of the service boundary; socket and file failures belong to the code
/// that performs the I/O.
#[derive(Clone, Debug, PartialEq, Eq)]
pub enum ServiceError {
    Protocol(ClientError),
    Registry(Error),
    UnsafeRuntime { path: Vec<u8>, reason: String },
    PeerUidMismatch { owner: u32, peer: u32 },
}

pub open spec fn service_error_text(e: ServiceError) -> Seq<char> {
    match e {
        ServiceError::Protocol(c) => "service protocol error: "@ + client_error_text(c),
        ServiceError::Registry(r) => "service registry error: "@ + error_text(r),
        ServiceError::UnsafeRuntime { path, reason } => "unsafe service runtime path "@ + lossy_text_of(path@)
            + ": "@ + reason@,
        ServiceError::PeerUidMismatch { owner, peer } => "service peer UID "@ + decimal_text(peer as nat)
            + " does not match owner UID "@ + decimal_text(owner as nat),
    }
}

impl ServiceError {
    /// The display text of the error.
    pub fn message(&self) -> (r: String)
        ensures
            r@ == service_error_text(*self),
    {
        match self {
            ServiceError::Protocol(c) => {
                let mut m = "service protocol error: ".to_owned();
                let t = c.message();
                m.append(t.as_str());
                m
            },
            ServiceError::Registry(e) => {
                let mut m = "service registry error: ".to_owned();
                let t = e.message();
                m.append(t.as_str());
                m
            },
            ServiceError::UnsafeRuntime { path, reason } => {
                let mut m = "unsafe service runtime path ".to_owned();
                let t = lossy_text(path.as_slice());
                m.append(t.as_str());
                m.append(": ");
                m.append(reason.as_str());
                m
            },
            ServiceError::PeerUidMismatch { owner, peer } => {
                let mut m = "service peer UID ".to_owned();
                let a = decimal(*peer as u64);
                m.append(a.as_str());
                m.append(" does not match owner UID ");
                let b = decimal(*owner as u64);
                m.append(b.as_str());
                m
            },
        }
    }
}

/// Enforce the same-user local IPC boundary.
pub fn authorize_uid(owner: u32, peer: u32) -> (r: Result<(), ServiceError>)
    ensures
        r is Ok <==> owner == peer,
        r matches Err(e) ==> e == (ServiceError::PeerUidMismatch { owner, peer }),
{
    if owner == peer {
        Ok(())
    } else {
        Err(ServiceError::PeerUidMismatch { owner, peer })
    }
}

/// `Path::parent` exists: the path has a last component and it is not the root.
pub open spec fn has_parent(p: Seq<u8>) -> bool {
    let cs = components(p);
    cs.len() > 0 && cs.last() != root_component()
}

pub open spec fn inside_some_vault(socket: Seq<u8>, vaults: Seq<Seq<u8>>) -> bool {
    exists|i: int| 0 <= i < vaults.len() && path_starts_with(socket, #[trigger] vaults[i])
}

/// Where the endpoint may be: outside every registered vault, and with a parent
/// directory.
pub fn check_endpoint(socket: &[u8], vault_roots: &[Vec<u8>]) -> (r: Result<(), ServiceError>)
    ensures
        if inside_some_vault(socket@, views(vault_roots@)) {
            r matches Err(ServiceError::UnsafeRuntime { path, reason }) && path@ == socket@
                && reason@ == "service endpoint must be outside every vault"@
        } else if !has_parent(socket@) {
            r matches Err(ServiceError::UnsafeRuntime { path, reason }) && path@ == socket@
                && reason@ == "socket path has no parent"@
        } else {
            r is Ok
        },
{
    let mut i: usize = 0;
    while i < vault_roots.len()
        invariant
            i <= vault_roots@.len(),
            forall|k: int| 0 <= k < i ==> !path_starts_with(socket@, #[trigger] views(vault_roots@)[k]),
        decreases vault_roots@.len() - i,
    {
        assert(views(vault_roots@)[i as int] == vault_roots@[i as int]@);
        if starts_with(socket, vault_roots[i].as_slice()) {
            return Err(ServiceError::UnsafeRuntime {
                path: crate::frontmatter_scalar::copy_range(socket, 0, socket.len()),
                reason: "service endpoint must be outside every vault".to_owned(),
            });
        }
        i = i + 1;
    }
    let cs = path_components(socket);
    let root: [u8; 1] = [47u8];
    assert(root@ =~= root_component());
    let parent = cs.len() > 0 && !crate::paths::bytes_equal(cs[cs.len() - 1].as_slice(), root.as_slice());
    assert(socket@.subrange(0, socket@.len() as int) =~= socket@);
    if !parent {
        return Err(ServiceError::UnsafeRuntime {
            path: crate::frontmatter_scalar::copy_range(socket, 0, socket.len()),
            reason: "socket path has no parent".to_owned(),
        });
    }
    Ok(())
}

/// A failure response for a request id.
pub fn error_response(request_id: String, code: &str, message: &str) -> (r: Response)
    ensures
        r.protocol_version == PROTOCOL_VERSION,
        r.request_id@ == request_id@,
        !r.ok,
        r.service_version@ == SERVICE_VERSION@,
        r.data is None,
        r.error matches Some(e) && e.code@ == code@ && e.message@ == message@,
{
    Response {
        protocol_version: PROTOCOL_VERSION,
        request_id,
        ok: false,
        service_version: SERVICE_VERSION.to_owned(),
        data: None,
        error: Some(ProtocolError { code: code.to_owned(), message: message.to_owned() }),
    }
}

/// How the service answers the first message of a connection, and whether the
/// connection goes on.
pub enum HelloReply {
    /// Negotiated: the reply selects the current protocol; the connection goes on.
    Accepted(Response),
    /// Refused: the reply is an error and the connection ends.
    Refused(Response),
}

pub open spec fn is_error_reply(r: Response, request_id: Seq<char>, code: Seq<char>, message: Seq<char>) -> bool {
    &&& r.protocol_version == PROTOCOL_VERSION
    &&& r.request_id@ == request_id
    &&& !r.ok
    &&& r.service_version@ == SERVICE_VERSION@
    &&& r.data is None
    &&& r.error matches Some(e) && e.code@ == code && e.message@ == message
}

pub open spec fn is_hello_reply(r: Response, request_id: Seq<char>) -> bool {
    &&& r.protocol_version == PROTOCOL_VERSION
    &&& r.request_id@ == request_id
    &&& r.ok
    &&& r.service_version@ == SERVICE_VERSION@
    &&& r.data == Some(ResponseData::Hello { selected_version: PROTOCOL_VERSION })
    &&& r.error is None
}

/// The answer to the first message of a connection: it must be a hello that
/// offers the current protocol version.
pub fn hello_reply(hello: Request) -> (r: HelloReply)
    ensures
        match hello.operation {
            Operation::Hello { client_versions, .. } => if client_versions@.contains(PROTOCOL_VERSION) {
                r matches HelloReply::Accepted(resp) && is_hello_reply(resp, hello.request_id@)
            } else {
                r matches HelloReply::Refused(resp) && is_error_reply(resp, hello.request_id@,
                    "protocol_incompatible"@, "no supported protocol version overlap"@)
            },
            Operation::ServiceStatus => r matches HelloReply::Refused(resp) && is_error_reply(resp,
                hello.request_id@, "handshake_required"@, "first operation must be hello"@),
        },
{
    let client_versions = match hello.operation {
        Operation::Hello { client_versions, .. } => client_versions,
        Operation::ServiceStatus => {
            return HelloReply::Refused(error_response(hello.request_id, "handshake_required", "first operation must be hello"));
        },
    };
    let mut i: usize = 0;
    let mut offered = false;
    while i < client_versions.len()
        invariant
            i <= client_versions@.len(),
            offered == (exists|k: int| 0 <= k < i && client_versions@[k] == PROTOCOL_VERSION),
        decreases client_versions@.len() - i,
    {
        if client_versions[i] == PROTOCOL_VERSION {
            offered = true;
        }
        i = i + 1;
    }
    if !offered {
        return HelloReply::Refused(error_response(hello.request_id, "protocol_incompatible", "no supported protocol version overlap"));
    }
    HelloReply::Accepted(Response {
        protocol_version: PROTOCOL_VERSION,
        request_id: hello.request_id,
        ok: true,
        service_version: SERVICE_VERSION.to_owned(),
        data: Some(ResponseData::Hello { selected_version: PROTOCOL_VERSION }),
        error: None,
    })
}

/// How the service answers a request after the handshake.
pub enum RequestAction {
    /// Send this reply.
    Reply(Response),
    /// Report the service status: count the registered vaults and send `status_reply`.
    ReportStatus(String),
}

/// The answer to a request after the handshake: a request under another protocol
/// version, or a second hello, is refused; a status request is answered with the
/// service status.
pub fn request_action(request: Request) -> (r: RequestAction)
    ensures
        if request.protocol_version != PROTOCOL_VERSION {
            r matches RequestAction::Reply(resp) && is_error_reply(resp, request.request_id@,
                "protocol_incompatible"@, "request protocol does not match negotiated protocol"@)
        } else {
            match request.operation {
                Operation::ServiceStatus => r matches RequestAction::ReportStatus(id) && id@ == request.request_id@,
                Operation::Hello { .. } => r matches RequestAction::Reply(resp) && is_error_reply(resp,
                    request.request_id@, "unexpected_hello"@, "hello is valid only as the first operation"@),
            }
        },
{
    if request.protocol_version != PROTOCOL_VERSION {
        return RequestAction::Reply(error_response(request.request_id, "protocol_incompatible",
            "request protocol does not match negotiated protocol"));
    }
    match request.operation {
        Operation::ServiceStatus => RequestAction::ReportStatus(request.request_id),
        Operation::Hello { .. } => RequestAction::Reply(error_response(request.request_id, "unexpected_hello",
            "hello is valid only as the first operation")),
    }
}

/// The status reply: the service is available, with the number of registered
/// vaults (saturating at the largest `u64`).
pub fn status_reply(request_id: String, registered_vaults: usize) -> (r: Response)
    ensures
        r.protocol_version == PROTOCOL_VERSION,
        r.request_id@ == request_id@,
        r.ok,
        r.service_version@ == SERVICE_VERSION@,
        r.error is None,
        r.data matches Some(ResponseData::ServiceStatus(s)) && s.state@ == "available"@
            && s.registered_vaults == registered_vaults as u64,
{
    Response {
        protocol_version: PROTOCOL_VERSION,
        request_id,
        ok: true,
        service_version: SERVICE_VERSION.to_owned(),
        data: Some(ResponseData::ServiceStatus(ServiceStatus {
            state: "available".to_owned(),
            registered_vaults: registered_vaults as u64,
        })),
        error: None,
    }
}


/// Law: the service's hello reply passes every check a client makes on it, so a
/// client that offered the current protocol version negotiates it.
pub proof fn lemma_client_accepts_hello_reply(resp: Response, request_id: Seq<char>, versions: Seq<u16>)
    requires
        is_hello_reply(resp, request_id),
        versions.contains(PROTOCOL_VERSION),
    ensures
        hello_ok(resp, request_id, versions),
{
    reveal_strlit("0.1.0");
}

/// Law: the service's status reply passes every check a client makes on it under
/// the current protocol version.
pub proof fn lemma_client_accepts_status_reply(resp: Response, request_id: Seq<char>)
    requires
        resp.protocol_version == PROTOCOL_VERSION,
        resp.request_id@ == request_id,
        resp.ok,
        resp.service_version@ == SERVICE_VERSION@,
        resp.error is None,
        resp.data matches Some(ResponseData::ServiceStatus(_)),
    ensures
        status_ok(resp, request_id, PROTOCOL_VERSION),
{
    reveal_strlit("0.1.0");
}

/// Law: a refusal by the service is a well-formed failure for this request, so
/// the client reports the service's own error code and message.
pub proof fn lemma_client_sees_refusal(resp: Response, request_id: Seq<char>, code: Seq<char>, message: Seq<char>)
    requires
        is_error_reply(resp, request_id, code, message),
    ensures
        resp.protocol_version == PROTOCOL_VERSION,
        !inconsistent_response(resp),
        resp.request_id@ == request_id,
        resp.error matches Some(e) && e.code@ == code && e.message@ == message,
{
    reveal_strlit("0.1.0");
}

} // verus!
