//! The values that handlers receive and return.
use vstd::prelude::*;

use crate::codec::empty_model;
use crate::packet::{auto_response, is_default_response, Packet};

verus! {

/// A response to send back to the peer that sent the request.
#[derive(Debug, Clone)]
pub struct CoAPResponse {
    pub message: Packet,
}

/// The packet inside an optional response.
pub open spec fn response_packet(r: Option<CoAPResponse>) -> Option<Packet> {
    match r {
        Some(resp) => Some(resp.message),
        None => None,
    }
}

impl CoAPResponse {
    /// The default response to `request` (see `auto_response`).
    pub fn new(request: &Packet) -> (r: Option<CoAPResponse>)
        requires
            request.wf(),
        ensures
            is_default_response(request@, response_packet(r)),
    {
        match auto_response(request) {
            Some(message) => Some(CoAPResponse { message }),
            None => None,
        }
    }
}

/// Where a datagram came from: the IP address in network byte order (4
/// bytes for IPv4, 16 for IPv6) and the UDP port.
#[derive(Debug, Clone, PartialEq, Eq)]
pub struct PeerAddress {
    pub ip: Vec<u8>,
    pub port: u16,
}

/// A decoded request, with the peer that sent it and the default response
/// prepared for the handler.
#[derive(Debug, Clone)]
pub struct CoAPRequest {
    pub message: Packet,
    pub response: Option<CoAPResponse>,
    pub source: Option<PeerAddress>,
}

impl CoAPRequest {
    pub fn new() -> (r: CoAPRequest)
        ensures
            r.message@ == empty_model(),
            r.message.wf(),
            r.response is None,
            r.source is None,
    {
        CoAPRequest { message: Packet::new(), response: None, source: None }
    }

    /// The request that a decoded packet from `source` stands for.
    pub fn from_packet(packet: Packet, source: PeerAddress) -> (r: CoAPRequest)
        requires
            packet.wf(),
        ensures
            r.message == packet,
            is_default_response(packet@, response_packet(r.response)),
            r.source == Some(source),
    {
        let response = CoAPResponse::new(&packet);
        CoAPRequest { message: packet, response, source: Some(source) }
    }
}

} // verus!
