//! A multi-hop encrypted message relay.
//!
//! A node holds asymmetric key material, registers pluggable network
//! backends by URL scheme, and exchanges packets whose pieces are
//! individually encrypted so that each hop can read only the pieces
//! addressed to it.  A hop surfaces the message pieces meant for it and
//! forwards the untouched packet bytes wherever a forwarding piece tells it
//! to; pieces it cannot decrypt stay opaque, and nothing on the wire reveals
//! hop count, route, or the purpose of any piece to a non-matching reader.

pub mod codec;
pub mod crypto;
pub mod mesher;
pub mod packet;
pub mod transports;
pub mod wire;
