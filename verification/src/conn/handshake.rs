//! What the handshake, which runs outside the connection, hands to it and
//! takes from it: keys, and the handshake's own data.

use vstd::prelude::*;
use crate::Error;
use crate::conn::{Conn, ConnView};
use crate::crypto::{keys_from_secret, Algorithm, Keys, Level};
use crate::packet::SpaceView;
use crate::stream::{flat, run_len, Chunk, StreamState, MAX_OFFSET};

verus! {

/// The connection after the handshake gave the secrets of a stage, and
/// what the handshake is told. The keys of a stage are set once: secrets for
/// a stage that has keys are refused. Else the keys to open with derive
/// from the secret that the peer writes with, `read_secret`, and the keys to
/// seal with from `write_secret`.
pub open spec fn keyed(
    c: ConnView,
    level: Level,
    alg: Algorithm,
    read_secret: Seq<u8>,
    write_secret: Seq<u8>,
) -> (ConnView, Result<(), Error>) {
    let sp = c.space(level);
    if sp.crypto_open.is_some() || sp.crypto_seal.is_some() {
        (c, Err(Error::InvalidState))
    } else {
        match keys_from_secret(alg, read_secret) {
            None => (c, Err(Error::CryptoFail)),
            Some(open) => match keys_from_secret(alg, write_secret) {
                None => (c, Err(Error::CryptoFail)),
                Some(seal) => (
                    c.with_space(
                        level,
                        SpaceView { crypto_open: Some(open), crypto_seal: Some(seal), ..sp },
                    ),
                    Ok(()),
                ),
            },
        }
    }
}

/// The connection after the handshake gave `data` to be sent at a stage,
/// and what the handshake is told: the data is queued behind what waits at
/// that stage, unless it would reach past the greatest offset.
pub open spec fn handshake_queued(c: ConnView, level: Level, data: Seq<u8>) -> (
    ConnView,
    Result<usize, Error>,
) {
    let sp = c.space(level);
    let cs = sp.crypto_stream;
    if cs.send_off + data.len() > MAX_OFFSET {
        (c, Err(Error::FlowControl))
    } else {
        (
            c.with_space(
                level,
                SpaceView {
                    crypto_stream: StreamState {
                        send: if data.len() == 0 {
                            cs.send
                        } else {
                            cs.send.push(Chunk { data, off: cs.send_off, fin: false })
                        },
                        send_off: cs.send_off + data.len(),
                        ..cs
                    },
                    ..sp
                },
            ),
            Ok(data.len() as usize),
        )
    }
}

/// The connection after the handshake took the data that arrived for it
/// at a stage, and the data: what stands ready at the offset up to which the
/// handshake has read, as far as it follows without a gap.
pub open spec fn handshake_read(c: ConnView, level: Level) -> (ConnView, Seq<u8>) {
    let sp = c.space(level);
    let cs = sp.crypto_stream;
    let n = run_len(cs.recv, cs.recv_off);
    let data = flat(cs.recv, n);
    (
        c.with_space(
            level,
            SpaceView {
                crypto_stream: StreamState {
                    recv: cs.recv.skip(n),
                    recv_off: cs.recv_off + data.len(),
                    ..cs
                },
                ..sp
            },
        ),
        data,
    )
}

impl Conn {
    /// Takes the secrets of a stage from the handshake and derives the
    /// stage's keys from them.
    pub fn set_encryption_secrets(
        &mut self,
        level: Level,
        alg: Algorithm,
        read_secret: &[u8],
        write_secret: &[u8],
    ) -> (r: Result<(), Error>)
        requires
            old(self).wf(),
        ensures
            final(self).wf(),
            (final(self)@, r) == keyed(old(self)@, level, alg, read_secret@, write_secret@),
    {
        let space = self.space_ref(level);
        if space.crypto_open.is_some() || space.crypto_seal.is_some() {
            return Err(Error::InvalidState);
        }
        let open = match Keys::from_secret(alg, read_secret) {
            Ok(k) => k,
            Err(e) => return Err(e),
        };
        let seal = match Keys::from_secret(alg, write_secret) {
            Ok(k) => k,
            Err(e) => return Err(e),
        };
        self.install_keys(level, open, seal);
        Ok(())
    }

    /// Puts in the keys of a stage.
    fn install_keys(&mut self, level: Level, open: Keys, seal: Keys)
        requires
            old(self).wf(),
            open.wf(),
            seal.wf(),
        ensures
            final(self).wf(),
            final(self)@ == old(self)@.with_space(
                level,
                SpaceView {
                    crypto_open: Some(open@),
                    crypto_seal: Some(seal@),
                    ..old(self)@.space(level)
                },
            ),
    {
        match level {
            Level::Initial => self.initial.install_keys(open, seal),
            Level::Handshake => self.handshake.install_keys(open, seal),
            Level::Application => self.application.install_keys(open, seal),
        }
    }

    /// Takes data from the handshake that is to be sent at a stage.
    pub fn add_handshake_data(&mut self, level: Level, data: &[u8]) -> (r: Result<usize, Error>)
        requires
            old(self).wf(),
        ensures
            final(self).wf(),
            (final(self)@, r) == handshake_queued(old(self)@, level, data@),
    {
        match level {
            Level::Initial => self.initial.push_handshake_data(data),
            Level::Handshake => self.handshake.push_handshake_data(data),
            Level::Application => self.application.push_handshake_data(data),
        }
    }

    /// Hands out the data that arrived for the handshake at a stage.
    pub fn handshake_recv(&mut self, level: Level) -> (r: Vec<u8>)
        requires
            old(self).wf(),
        ensures
            final(self).wf(),
            (final(self)@, r@) == handshake_read(old(self)@, level),
    {
        let buf = match level {
            Level::Initial => self.initial.read_crypto(),
            Level::Handshake => self.handshake.read_crypto(),
            Level::Application => self.application.read_crypto(),
        };
        buf.data
    }
}

} // verus!
