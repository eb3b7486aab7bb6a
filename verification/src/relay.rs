//! The relay steps around one upstream call.
//!
//! `plan` turns an inbound request into the request to send upstream and
//! names the credential it is sent with. The caller performs the call and
//! reports what came of it; `settle` then updates the ledger from what was
//! observed and gives the response for the inbound caller.
use vstd::prelude::*;
use crate::bytes::copy_bytes;
use crate::headers::{
    carries, forward_headers, forwarded, has_name, headers_view, lemma_signal_never_echoed,
    lemma_signal_never_forwarded, observed_reset, remove_named, reset_spec, signal_header_name,
    signal_name, without_name, Header,
};
use crate::ledger::{recorded, CredentialId, Ledger, LedgerKey, Timestamp};
use crate::route::{derive_route_key, route_key_spec, strip_spec, strip_version_prefix, RouteKey};
use crate::selector::{choice, CredentialPool};

verus! {

/// A request as it reached the relay. `target` is the path and query of the
/// request line, absent where the request line carried none.
#[derive(Clone, Debug, PartialEq, Eq)]
pub struct InboundRequest {
    pub method: Vec<u8>,
    pub target: Option<Vec<u8>>,
    pub headers: Vec<Header>,
    pub body: Vec<u8>,
}

/// The request to hand to the transport, with the credential it is made
/// with and the route it is accounted under.
#[derive(Clone, Debug, PartialEq, Eq)]
pub struct OutboundRequest {
    pub credential: CredentialId,
    pub route: RouteKey,
    pub method: Vec<u8>,
    pub target: Vec<u8>,
    pub headers: Vec<Header>,
    pub body: Option<Vec<u8>>,
}

/// What came of the upstream call.
#[derive(Clone, Debug, PartialEq, Eq)]
pub enum Upstream {
    /// No response arrived: the connection failed or timed out.
    Unreachable,
    /// A response began, but its body could not be read to the end.
    BodyUnreadable { headers: Vec<Header> },
    /// A complete response, of whatever status.
    Answered { status: u16, headers: Vec<Header>, body: Vec<u8> },
}

/// A response for the inbound caller.
#[derive(Clone, Debug, PartialEq, Eq)]
pub struct Response {
    pub status: u16,
    pub headers: Vec<Header>,
    pub body: Vec<u8>,
}

impl Response {
    /// A response made by the relay itself: a status and a short text, no
    /// headers.
    pub open spec fn is_plain(&self, status: u16, text: Seq<u8>) -> bool {
        self.status == status && self.headers@.len() == 0 && self.body@ == text
    }
}

/// `No path in URI`.
pub open spec fn malformed_text() -> Seq<u8> {
    seq![78u8, 111u8, 32u8, 112u8, 97u8, 116u8, 104u8, 32u8, 105u8, 110u8, 32u8, 85u8, 82u8, 73u8]
}

/// `Request failed`.
pub open spec fn unreachable_text() -> Seq<u8> {
    seq![82u8, 101u8, 113u8, 117u8, 101u8, 115u8, 116u8, 32u8, 102u8, 97u8, 105u8, 108u8, 101u8, 100u8]
}

/// `Reading body failed`.
pub open spec fn unreadable_text() -> Seq<u8> {
    seq![
        82u8, 101u8, 97u8, 100u8, 105u8, 110u8, 103u8, 32u8, 98u8, 111u8, 100u8, 121u8, 32u8, 102u8,
        97u8, 105u8, 108u8, 101u8, 100u8,
    ]
}

/// Status of the response to a request without a target.
pub const MALFORMED_STATUS: u16 = 400;

/// Status of the response when the upstream could not be reached.
pub const UNREACHABLE_STATUS: u16 = 502;

/// Status of the response when the upstream body could not be read.
pub const UNREADABLE_STATUS: u16 = 500;

impl OutboundRequest {
    /// What is owed for an inbound request with the given target once its
    /// route key is known.
    pub open spec fn is_plan_for(
        &self,
        pool: &CredentialPool,
        ledger: Map<LedgerKey, Timestamp>,
        request: &InboundRequest,
        target: Seq<u8>,
        route: Option<Seq<u8>>,
        now: Timestamp,
    ) -> bool {
        &&& self.route@ == route
        &&& self.credential == choice(
            pool.auxiliary.len(),
            ledger,
            route,
            has_name(headers_view(request.headers@), signal_name()),
            now,
        )
        &&& self.method@ == request.method@
        &&& self.target@ == strip_spec(target)
        &&& headers_view(self.headers@) == forwarded(
            headers_view(request.headers@),
            pool.token_spec(self.credential),
        )
        &&& match self.body {
            Some(body) => body@.len() > 0 && body@ == request.body@,
            None => request.body@.len() == 0,
        }
    }
}

fn malformed_response() -> (r: Response)
    ensures
        r.is_plain(MALFORMED_STATUS, malformed_text()),
{
    let body: Vec<u8> = vec![
        78u8, 111u8, 32u8, 112u8, 97u8, 116u8, 104u8, 32u8, 105u8, 110u8, 32u8, 85u8, 82u8, 73u8,
    ];
    assert(body@ =~= malformed_text());
    Response { status: MALFORMED_STATUS, headers: Vec::new(), body }
}

fn unreachable_response() -> (r: Response)
    ensures
        r.is_plain(UNREACHABLE_STATUS, unreachable_text()),
{
    let body: Vec<u8> = vec![
        82u8, 101u8, 113u8, 117u8, 101u8, 115u8, 116u8, 32u8, 102u8, 97u8, 105u8, 108u8, 101u8, 100u8,
    ];
    assert(body@ =~= unreachable_text());
    Response { status: UNREACHABLE_STATUS, headers: Vec::new(), body }
}

fn unreadable_response() -> (r: Response)
    ensures
        r.is_plain(UNREADABLE_STATUS, unreadable_text()),
{
    let body: Vec<u8> = vec![
        82u8, 101u8, 97u8, 100u8, 105u8, 110u8, 103u8, 32u8, 98u8, 111u8, 100u8, 121u8, 32u8, 102u8,
        97u8, 105u8, 108u8, 101u8, 100u8,
    ];
    assert(body@ =~= unreadable_text());
    Response { status: UNREADABLE_STATUS, headers: Vec::new(), body }
}

/// Prepares the upstream request for a target whose route key is known.
///
/// A credential is chosen for the route (the primary unless the request
/// carries the signal header), the version prefix leaves the target, and
/// the headers are passed on without the signal header and with the chosen
/// credential's authorization in place of any the caller sent. An empty
/// body is sent as no body. The ledger is only read.
pub fn plan_for(
    pool: &CredentialPool,
    ledger: &Ledger,
    request: &InboundRequest,
    target: &Vec<u8>,
    route: RouteKey,
    now: Timestamp,
) -> (out: OutboundRequest)
    requires
        ledger.wf(),
    ensures
        out.is_plan_for(pool, ledger@, request, target@, route@, now),
        pool.contains(out.credential),
        !has_name(headers_view(out.headers@), signal_name()),
{
    let signal = signal_header_name();
    let auxiliary_preferred = carries(&request.headers, &signal);
    let credential = pool.select(ledger, &route, auxiliary_preferred, now);
    let headers = forward_headers(&request.headers, pool.token(credential));
    proof {
        lemma_signal_never_forwarded(headers_view(request.headers@), pool.token_spec(credential));
    }
    let body = if request.body.len() == 0 {
        None
    } else {
        Some(copy_bytes(&request.body))
    };
    OutboundRequest {
        credential,
        route,
        method: copy_bytes(&request.method),
        target: strip_version_prefix(target),
        headers,
        body,
    }
}

/// Prepares the upstream request for an inbound one.
///
/// A request without a target is answered at once, with status 400, and
/// nothing is planned. Every other request is planned, as `plan_for` does
/// it, under the route key derived from its method and target.
pub fn plan(pool: &CredentialPool, ledger: &Ledger, request: &InboundRequest, now: Timestamp) -> (r: Result<
    OutboundRequest,
    Response,
>)
    requires
        ledger.wf(),
    ensures
        match request.target {
            None => r matches Err(e) && e.is_plain(MALFORMED_STATUS, malformed_text()),
            Some(target) => r matches Ok(out) && out.is_plan_for(
                pool,
                ledger@,
                request,
                target@,
                route_key_spec(request.method@, target@),
                now,
            ) && pool.contains(out.credential) && !has_name(headers_view(out.headers@), signal_name()),
        },
{
    match &request.target {
        None => Err(malformed_response()),
        Some(target) => {
            let route = derive_route_key(&request.method, target);
            Ok(plan_for(pool, ledger, request, target, route, now))
        },
    }
}

/// Closes a relayed request: books what the upstream call showed and gives
/// the response for the caller.
///
/// If the upstream was not reached, the ledger is left as it was and the
/// response is a 502. Otherwise the reset time announced by the response
/// headers, or its absence, is recorded for the credential and route,
/// whatever the status. A complete response is handed back with its own
/// status and body and with its headers less the signal header; one whose
/// body could not be read becomes a 500.
pub fn settle(
    ledger: &mut Ledger,
    credential: CredentialId,
    route: &RouteKey,
    upstream: Upstream,
    now: Timestamp,
) -> (r: Response)
    requires
        old(ledger).wf(),
    ensures
        final(ledger).wf(),
        !has_name(headers_view(r.headers@), signal_name()),
        match upstream {
            Upstream::Unreachable => final(ledger)@ == old(ledger)@ && r.is_plain(
                UNREACHABLE_STATUS,
                unreachable_text(),
            ),
            Upstream::BodyUnreadable { headers } => final(ledger)@ == recorded(
                old(ledger)@,
                (credential, route@),
                reset_spec(headers_view(headers@), now),
            ) && r.is_plain(UNREADABLE_STATUS, unreadable_text()),
            Upstream::Answered { status, headers, body } => final(ledger)@ == recorded(
                old(ledger)@,
                (credential, route@),
                reset_spec(headers_view(headers@), now),
            ) && r.status == status && r.body@ == body@ && headers_view(r.headers@) == without_name(
                headers_view(headers@),
                signal_name(),
            ),
        },
{
    match upstream {
        Upstream::Unreachable => unreachable_response(),
        Upstream::BodyUnreadable { headers } => {
            ledger.record(credential, route, observed_reset(&headers, now));
            unreadable_response()
        },
        Upstream::Answered { status, headers, body } => {
            ledger.record(credential, route, observed_reset(&headers, now));
            let signal = signal_header_name();
            proof {
                lemma_signal_never_echoed(headers_view(headers@));
            }
            Response { status, headers: remove_named(&headers, &signal), body }
        },
    }
}

} // verus!
