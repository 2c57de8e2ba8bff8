//! What the connection hears from the TLS handshake, which runs outside it.

use vstd::prelude::*;

verus! {

/// What one step of the TLS handshake reported, as a mathematical value.
pub enum OutcomeView {
    Complete { peer_params: Option<Seq<u8>> },
    WantRead,
    WantWrite,
    PendingOperation,
    TlsFail,
    SyscallFail,
}

/// What one step of the TLS handshake reported.
#[derive(Debug)]
pub enum Outcome {
    /// The handshake is complete. With it come the transport parameters
    /// that the peer announced, as the handshake carried them, or nothing
    /// where they could not be had.
    Complete { peer_params: Option<Vec<u8>> },
    /// The handshake waits for data from the peer.
    WantRead,
    /// The handshake waits for its data to be sent.
    WantWrite,
    /// The handshake waits for an operation that runs elsewhere.
    PendingOperation,
    /// The handshake failed.
    TlsFail,
    /// A system call failed under the handshake.
    SyscallFail,
}

impl View for Outcome {
    type V = OutcomeView;

    open spec fn view(&self) -> OutcomeView {
        match self {
            Outcome::Complete { peer_params } => OutcomeView::Complete {
                peer_params: match peer_params {
                    Some(p) => Some(p@),
                    None => None,
                },
            },
            Outcome::WantRead => OutcomeView::WantRead,
            Outcome::WantWrite => OutcomeView::WantWrite,
            Outcome::PendingOperation => OutcomeView::PendingOperation,
            Outcome::TlsFail => OutcomeView::TlsFail,
            Outcome::SyscallFail => OutcomeView::SyscallFail,
        }
    }
}

} // verus!
