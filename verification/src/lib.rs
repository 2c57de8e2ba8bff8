//! The core of a QUIC transport endpoint: packet and frame codecs, stream
//! reassembly, flow control and the per-connection state machine.

use vstd::prelude::*;

pub mod octets;
pub mod params;
pub mod ranges;
pub mod stream;
pub mod frame;
pub mod crypto;
pub mod packet;
pub mod rand;
pub mod tls;
pub mod conn;
pub mod roundtrip;
pub mod delivery;

pub use conn::{Config, Conn};
pub use params::TransportParams;

verus! {

/// The protocol version spoken by this endpoint.
pub const VERSION_DRAFT15: u32 = 0xff00000f;

/// The least size of a datagram that carries a client's first Initial packet.
pub const CLIENT_INITIAL_MIN_LEN: usize = 1200;

/// The largest packet this endpoint plans for.
pub const MAX_PKT_LEN: usize = 1252;

/// Why an operation did not produce a result.
#[derive(Clone, Copy, Debug, PartialEq, Eq, Structural)]
pub enum Error {
    WrongForm,
    UnknownVersion,
    UnknownPacket,
    UnknownFrame,
    UnknownStream,
    BufferTooShort,
    InvalidPacket,
    InvalidState,
    CryptoFail,
    TlsFail,
    Again,
    NothingToDo,
    FlowControl,
}

} // verus!
