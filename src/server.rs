//! What the UDP server decides: how a received datagram becomes the
//! response to send back. Sockets, threads and queues stay with the caller.
use vstd::prelude::*;

use crate::codec::spec_decode;
use crate::message::{response_packet, CoAPRequest, CoAPResponse, PeerAddress};
use crate::packet::{is_default_response, Packet};
use crate::router::{accepts_all, route_for, CoAPRouter};

verus! {

/// Worker threads that a server starts with.
pub const DEFAULT_WORKER_NUM: usize = 4;

/// The largest datagram that the server reads.
pub const MAX_DATAGRAM_LEN: usize = 1500;

/// Errors of starting a server.
#[derive(Debug, PartialEq, Eq, Structural, Clone, Copy)]
pub enum CoAPServerError {
    NetworkError,
    EventLoopError,
    AnotherHandlerIsRunning,
}

/// What requests are handed to: one function, or a router.
#[derive(Clone)]
pub enum CoAPDispatcher<H> {
    FunctionHandler(H),
    RouterHandler(CoAPRouter<H>),
}

impl<H: Fn(CoAPRequest) -> Option<CoAPResponse>> CoAPDispatcher<H> {
    /// Every handler that the dispatcher may call accepts any request.
    pub open spec fn wf(&self) -> bool {
        match self {
            CoAPDispatcher::FunctionHandler(f) => accepts_all(*f),
            CoAPDispatcher::RouterHandler(router) => router.wf(),
        }
    }

    /// `r` is an outcome of dispatching `req`.
    pub open spec fn dispatches_to(&self, req: CoAPRequest, r: Option<CoAPResponse>) -> bool {
        match self {
            CoAPDispatcher::FunctionHandler(f) => call_ensures(*f, (req,), r),
            CoAPDispatcher::RouterHandler(router) => match route_for(router@, req.message@) {
                Some(h) => call_ensures(h, (req,), r),
                None => r is None,
            },
        }
    }

    /// Hands `req` to the function, or to the router.
    pub fn dispatch(&self, req: CoAPRequest) -> (r: Option<CoAPResponse>)
        requires
            self.wf(),
            req.message.wf(),
        ensures
            self.dispatches_to(req, r),
    {
        match self {
            CoAPDispatcher::FunctionHandler(f) => f(req),
            CoAPDispatcher::RouterHandler(router) => router.handle(req),
        }
    }
}

/// The work done for one datagram received from `source`: decode it (a
/// datagram that does not decode is dropped), make the request with its
/// peer and its default response, and dispatch it once. The result is the
/// response to send back to `source`, if any.
pub fn handle_datagram<H: Fn(CoAPRequest) -> Option<CoAPResponse>>(
    dispatcher: &CoAPDispatcher<H>,
    buf: &[u8],
    source: PeerAddress,
) -> (r: Option<CoAPResponse>)
    requires
        dispatcher.wf(),
    ensures
        match spec_decode(buf@) {
            Err(_) => r is None,
            Ok(m) => exists|req: CoAPRequest|
                {
                    &&& #[trigger] dispatcher.dispatches_to(req, r)
                    &&& req.message@ == m
                    &&& req.message.wf()
                    &&& req.source == Some(source)
                    &&& is_default_response(m, response_packet(req.response))
                },
        },
{
    match Packet::from_bytes(buf) {
        Err(_) => None,
        Ok(packet) => {
            let request = CoAPRequest::from_packet(packet, source);
            let ghost sent = request;
            let r = dispatcher.dispatch(request);
            assert(dispatcher.dispatches_to(sent, r));
            r
        },
    }
}

} // verus!
