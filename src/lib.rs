//! A CoAP message engine: a bit-exact codec for the CoAP datagram format,
//! the message model around it, and the request router used by the server.

pub mod codec;
pub mod message;
pub mod packet;
pub mod router;
pub mod server;
