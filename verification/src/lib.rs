//! Client side of the TCPROS service protocol, and the codec that lays the
//! messages of a call out on the wire.
//!
//! * `wire`: integers as little-endian bytes.
//! * `encoder`: the streaming encoder, which frames strings, tuples, structs
//!   and sequences behind their sizes.
//! * `value`: the values that the codec knows, and the bytes of each.
//! * `decoder`: reading values back, and the proof that what was encoded is
//!   read back as it was.
//! * `header`: the connection header of `key=value` fields.
//! * `client`: one service call as a sequence of steps, each of which says
//!   what is to be done on the connection next.
//! * `error`: what can go wrong.

pub mod client;
pub mod decoder;
pub mod encoder;
pub mod error;
pub mod header;
pub mod value;
pub mod wire;
