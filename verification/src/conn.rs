//! The connection: the state machine that takes datagrams in, gives
//! datagrams out, and carries streams between them.

use vstd::prelude::*;
use crate::Error;
use crate::crypto::{derive_initial_key_material, initial_keys, Level};
use crate::octets::{copy_range, MAX_VARINT};
use crate::packet::{new_space, PktNumSpace, SpaceView, Type};
use crate::params::{decode_spec, Params, TransportParams};
use crate::rand::rand_bytes;
use crate::stream::{new_stream, Chunk, RangeBuf, Stream, StreamState, MAX_OFFSET};
use crate::tls::{Outcome, OutcomeView};

mod handshake;
mod recv;
mod send;

pub use handshake::{handshake_queued, handshake_read, keyed};
pub use recv::{
    any_ack_eliciting, arrival, arrived, bounds, created_after, crypto_arrived, data_allowed,
    frame_applied, frame_error, frames_applied, frames_error, introduced,
    lemma_above_limit_refused, lemma_flow_control, level_of, met, open_keys, recv_spec, selected,
    lemma_stream_frame_bytes, stream_allowed, stream_arrived, stream_data_allowed, stream_limit,
    stream_of, stream_received, Arrival, Bounds, Opened,
};
pub use send::{
    ack_step, any_more_credit, any_writable, credit_step, credit_steps, crypto_step, drafted,
    first_sendable, head_bytes, lemma_credit_raised, max_data_step, min_pad_step, next_max_data,
    packet_out, padding_step, peer_can_open, planned, send_level, sent, stream_room, stream_step,
    Draft, Plan,
};

verus! {

/// What a connection is made with.
#[derive(Clone, Copy, Debug)]
pub struct Config<'a> {
    pub version: u32,
    pub local_conn_id: &'a [u8],
    pub local_transport_params: &'a TransportParams,
    pub tls_server_name: &'a str,
    pub tls_certificate: &'a str,
    pub tls_certificate_key: &'a str,
}

/// A connection as a mathematical value.
pub struct ConnView {
    pub version: u32,
    pub dcid: Seq<u8>,
    pub scid: Seq<u8>,
    pub initial: SpaceView,
    pub handshake: SpaceView,
    pub application: SpaceView,
    pub peer_transport_params: Params,
    pub local_transport_params: Params,
    pub rx_data: u64,
    pub max_rx_data: u64,
    pub tx_data: u64,
    pub max_tx_data: u64,
    /// The streams with their IDs, in the order in which they came to be.
    pub streams: Seq<(u64, StreamState)>,
    pub is_server: bool,
    pub derived_initial_secrets: bool,
    pub sent_initial: bool,
    pub got_peer_conn_id: bool,
    pub handshake_completed: bool,
    pub draining: bool,
}

/// The place of the stream `id` in the table `t`, searched from `i` on.
pub open spec fn position(t: Seq<(u64, StreamState)>, id: u64, i: int) -> Option<int>
    decreases t.len() - i,
{
    if i < 0 || i >= t.len() {
        None
    } else if t[i].0 == id {
        Some(i)
    } else {
        position(t, id, i + 1)
    }
}

/// The place of the stream `id` in the table `t`.
pub open spec fn find(t: Seq<(u64, StreamState)>, id: u64) -> Option<int> {
    position(t, id, 0)
}

impl ConnView {
    /// The space of the given stage.
    pub open spec fn space(self, level: Level) -> SpaceView {
        match level {
            Level::Initial => self.initial,
            Level::Handshake => self.handshake,
            Level::Application => self.application,
        }
    }

    /// The connection with `s` as the space of the given stage.
    pub open spec fn with_space(self, level: Level, s: SpaceView) -> ConnView {
        match level {
            Level::Initial => ConnView { initial: s, ..self },
            Level::Handshake => ConnView { handshake: s, ..self },
            Level::Application => ConnView { application: s, ..self },
        }
    }

    /// The limit up to which the peer may send on a stream that is new.
    pub open spec fn stream_window(self) -> u64 {
        self.local_transport_params.initial_max_stream_data_bidi_local as u64
    }

    /// A stream on which nothing happened yet.
    pub open spec fn fresh_stream(self) -> StreamState {
        new_stream(
            self.local_transport_params.initial_max_stream_data_bidi_local as u64,
            self.peer_transport_params.initial_max_stream_data_bidi_remote as u64,
        )
    }

    /// The table of streams with the stream `id` in it: a stream that is
    /// not there yet is put at the end.
    pub open spec fn with_stream(self, id: u64) -> Seq<(u64, StreamState)> {
        if find(self.streams, id).is_some() {
            self.streams
        } else {
            self.streams.push((id, self.fresh_stream()))
        }
    }

    /// The three spaces are in order, each for its kind of packet; every
    /// stream is in order, under an ID of 62 bits that no other stream has,
    /// with the window that this side announced; and the connection has sent
    /// no more than the peer allows, and nothing before the handshake is
    /// complete.
    pub open spec fn wf(self) -> bool {
        &&& self.initial.wf()
        &&& self.handshake.wf()
        &&& self.application.wf()
        &&& self.initial.pkt_type == Type::Initial
        &&& self.handshake.pkt_type == Type::Handshake
        &&& self.application.pkt_type == Type::Application
        &&& self.initial.crypto_level == Level::Initial
        &&& self.handshake.crypto_level == Level::Handshake
        &&& self.application.crypto_level == Level::Application
        &&& forall|i: int|
            0 <= i < self.streams.len() ==> (#[trigger] self.streams[i]).1.wf() && self.streams[i].0
                <= MAX_VARINT && self.streams[i].1.window == self.stream_window()
        &&& forall|i: int, j: int|
            0 <= i < j < self.streams.len() ==> (#[trigger] self.streams[i]).0 != (
            #[trigger] self.streams[j]).0
        &&& self.tx_data <= self.max_tx_data <= MAX_OFFSET
        &&& (!self.handshake_completed ==> self.tx_data == 0)
        &&& self.rx_data <= MAX_OFFSET
        &&& self.max_rx_data <= MAX_VARINT
        &&& self.local_transport_params.stateless_reset_token.len() == 16
        &&& self.peer_transport_params.stateless_reset_token.len() == 16
    }
}

/// The connection that `config` describes for the given side, before any
/// key is derived.
pub open spec fn blank_conn(
    version: u32,
    scid: Seq<u8>,
    local: Params,
    is_server: bool,
) -> ConnView {
    ConnView {
        version,
        dcid: Seq::empty(),
        scid,
        initial: new_space(Type::Initial, Level::Initial),
        handshake: new_space(Type::Handshake, Level::Handshake),
        application: new_space(Type::Application, Level::Application),
        peer_transport_params: crate::params::default_params(),
        local_transport_params: local,
        rx_data: 0,
        max_rx_data: local.initial_max_data as u64,
        tx_data: 0,
        max_tx_data: 0,
        streams: Seq::empty(),
        is_server,
        derived_initial_secrets: false,
        sent_initial: false,
        got_peer_conn_id: false,
        handshake_completed: false,
        draining: false,
    }
}

/// The connection that `config` describes. A server starts without keys. A
/// client starts with the destination connection ID `dcid`, which it chose,
/// and with the keys of the first packets, which derive from it; `None`
/// where they cannot be derived.
pub open spec fn new_conn(
    version: u32,
    scid: Seq<u8>,
    local: Params,
    is_server: bool,
    dcid: Seq<u8>,
) -> Option<ConnView> {
    let c = blank_conn(version, scid, local, is_server);
    if is_server {
        Some(c)
    } else {
        match initial_keys(dcid, false) {
            None => None,
            Some((open, seal)) => Some(
                ConnView {
                    dcid,
                    initial: SpaceView {
                        crypto_open: Some(open),
                        crypto_seal: Some(seal),
                        ..c.initial
                    },
                    derived_initial_secrets: true,
                    ..c
                },
            ),
        }
    }
}

/// The connection after one step of the handshake reported `o`, and what
/// the connection makes of it. A handshake that is complete is not asked
/// again. When it completes, the peer's transport parameters are read and
/// the peer's limit on data becomes the connection's limit on sending.
pub open spec fn pumped(c: ConnView, o: OutcomeView) -> (ConnView, Result<(), Error>) {
    if c.handshake_completed {
        (c, Ok(()))
    } else {
        match o {
            OutcomeView::Complete { peer_params } => {
                let done = ConnView { handshake_completed: true, ..c };
                match peer_params {
                    None => (done, Err(Error::TlsFail)),
                    Some(raw) => match decode_spec(raw, c.is_server) {
                        Err(e) => (done, Err(e)),
                        Ok(p) => (
                            ConnView {
                                peer_transport_params: p,
                                max_tx_data: p.initial_max_data as u64,
                                ..done
                            },
                            Ok(()),
                        ),
                    },
                }
            },
            OutcomeView::WantRead => (c, Ok(())),
            OutcomeView::WantWrite => (c, Ok(())),
            OutcomeView::PendingOperation => (c, Err(Error::Again)),
            OutcomeView::TlsFail => (c, Err(Error::TlsFail)),
            OutcomeView::SyscallFail => (c, Err(Error::TlsFail)),
        }
    }
}

/// The IDs of the first `n` streams in `t` that have bytes ready to be
/// read, in the table's order.
pub open spec fn readable_upto(t: Seq<(u64, StreamState)>, n: int) -> Seq<u64>
    decreases n,
{
    if n <= 0 {
        Seq::empty()
    } else if t[n - 1].1.can_read() {
        readable_upto(t, n - 1).push(t[n - 1].0)
    } else {
        readable_upto(t, n - 1)
    }
}

/// The connection after `data` was written to the stream `id`, and what
/// the writer is told. A stream that is not there yet comes to be, unless its
/// ID does not fit 62 bits. A write that would reach past the greatest
/// offset is refused.
pub open spec fn stream_sent(c: ConnView, id: u64, data: Seq<u8>, fin: bool) -> (
    ConnView,
    Result<usize, Error>,
) {
    if id > MAX_VARINT {
        (c, Err(Error::UnknownStream))
    } else {
        let t = c.with_stream(id);
        let i = find(t, id).unwrap();
        let s = t[i].1;
        if s.send_off + data.len() > MAX_OFFSET {
            (ConnView { streams: t, ..c }, Err(Error::FlowControl))
        } else {
            let pushed = StreamState {
                send: if data.len() == 0 && !fin {
                    s.send
                } else {
                    s.send.push(Chunk { data, off: s.send_off, fin })
                },
                send_off: s.send_off + data.len(),
                ..s
            };
            (ConnView { streams: t.update(i, (id, pushed)), ..c }, Ok(data.len() as usize))
        }
    }
}

/// A stream that is in the table is found at its place, and only there.
pub proof fn lemma_position(t: Seq<(u64, StreamState)>, id: u64, i: int)
    requires
        0 <= i,
    ensures
        match position(t, id, i) {
            Some(k) => i <= k < t.len() && t[k].0 == id && forall|j: int|
                i <= j < k ==> (#[trigger] t[j]).0 != id,
            None => forall|j: int| i <= j < t.len() ==> (#[trigger] t[j]).0 != id,
        },
    decreases t.len() - i,
{
    if i < t.len() && t[i].0 != id {
        lemma_position(t, id, i + 1);
    }
}

/// The table of streams as mathematical values.
pub open spec fn table_view(v: Seq<(u64, Stream)>) -> Seq<(u64, StreamState)> {
    Seq::new(v.len(), |i: int| (v[i].0, v[i].1@))
}

/// The hexadecimal digit for a number below sixteen.
pub open spec fn hex_digit(n: u8) -> char {
    if n < 10 {
        (0x30 + n) as char
    } else {
        (0x57 + n) as char
    }
}

/// The bytes of `s` in hexadecimal digits, two for each byte.
pub open spec fn hex(s: Seq<u8>) -> Seq<char> {
    Seq::new(
        2 * s.len(),
        |i: int|
            if i % 2 == 0 {
                hex_digit(s[i / 2] / 16)
            } else {
                hex_digit(s[i / 2] % 16)
            },
    )
}

/// Appends a character to a string, as the standard library documents it.
pub assume_specification[ String::push ](s: &mut String, c: char)
    ensures
        final(s)@ == old(s)@.push(c),
;

/// A connection.
pub struct Conn {
    version: u32,
    dcid: Vec<u8>,
    scid: Vec<u8>,
    initial: PktNumSpace,
    handshake: PktNumSpace,
    application: PktNumSpace,
    peer_transport_params: TransportParams,
    local_transport_params: TransportParams,
    rx_data: u64,
    max_rx_data: u64,
    tx_data: u64,
    max_tx_data: u64,
    streams: Vec<(u64, Stream)>,
    is_server: bool,
    derived_initial_secrets: bool,
    sent_initial: bool,
    got_peer_conn_id: bool,
    handshake_completed: bool,
    draining: bool,
}

impl View for Conn {
    type V = ConnView;

    closed spec fn view(&self) -> ConnView {
        ConnView {
            version: self.version,
            dcid: self.dcid@,
            scid: self.scid@,
            initial: self.initial@,
            handshake: self.handshake@,
            application: self.application@,
            peer_transport_params: self.peer_transport_params@,
            local_transport_params: self.local_transport_params@,
            rx_data: self.rx_data,
            max_rx_data: self.max_rx_data,
            tx_data: self.tx_data,
            max_tx_data: self.max_tx_data,
            streams: table_view(self.streams@),
            is_server: self.is_server,
            derived_initial_secrets: self.derived_initial_secrets,
            sent_initial: self.sent_initial,
            got_peer_conn_id: self.got_peer_conn_id,
            handshake_completed: self.handshake_completed,
            draining: self.draining,
        }
    }
}

impl Conn {
    /// See `ConnView::wf`.
    pub open spec fn wf(&self) -> bool {
        self@.wf()
    }

    /// A connection for the given side. A client chooses sixteen random
    /// bytes as the destination connection ID and derives the keys of its
    /// first packets from them; where the random bytes or the keys cannot be
    /// had, there is no connection.
    pub fn new(config: Config, is_server: bool) -> (r: Result<Box<Conn>, Error>)
        ensures
            match r {
                Ok(c) => c.wf() && exists|dcid: Seq<u8>|
                    dcid.len() == 16 && #[trigger] new_conn(
                        config.version,
                        config.local_conn_id@,
                        config.local_transport_params@,
                        is_server,
                        dcid,
                    ) == Some(c@),
                Err(e) => e == Error::CryptoFail && !is_server,
            },
    {
        let dcid: Vec<u8> = if is_server {
            Vec::new()
        } else {
            match rand_bytes(16) {
                Some(v) => v,
                None => return Err(Error::CryptoFail),
            }
        };
        let r = Conn::new_with_dcid(config, is_server, dcid.as_slice());
        proof {
            if is_server {
                let zeros = Seq::new(16, |i: int| 0u8);
                assert(new_conn(
                    config.version,
                    config.local_conn_id@,
                    config.local_transport_params@,
                    is_server,
                    zeros,
                ) == new_conn(
                    config.version,
                    config.local_conn_id@,
                    config.local_transport_params@,
                    is_server,
                    dcid@,
                ));
            }
        }
        r
    }

    /// A connection for the given side; a client's destination connection
    /// ID is `dcid`.
    pub fn new_with_dcid(config: Config, is_server: bool, dcid: &[u8]) -> (r: Result<
        Box<Conn>,
        Error,
    >)
        ensures
            match r {
                Ok(c) => c.wf() && new_conn(
                    config.version,
                    config.local_conn_id@,
                    config.local_transport_params@,
                    is_server,
                    dcid@,
                ) == Some(c@),
                Err(e) => e == Error::CryptoFail && new_conn(
                    config.version,
                    config.local_conn_id@,
                    config.local_transport_params@,
                    is_server,
                    dcid@,
                ).is_none(),
            },
    {
        let scid = copy_range(config.local_conn_id, 0, config.local_conn_id.len());
        assert(scid@ =~= config.local_conn_id@);
        let mut conn = Conn {
            version: config.version,
            dcid: Vec::new(),
            scid,
            initial: PktNumSpace::new(Type::Initial, Level::Initial),
            handshake: PktNumSpace::new(Type::Handshake, Level::Handshake),
            application: PktNumSpace::new(Type::Application, Level::Application),
            peer_transport_params: TransportParams::default(),
            local_transport_params: *config.local_transport_params,
            rx_data: 0,
            max_rx_data: config.local_transport_params.initial_max_data as u64,
            tx_data: 0,
            max_tx_data: 0,
            streams: Vec::new(),
            is_server,
            derived_initial_secrets: false,
            sent_initial: false,
            got_peer_conn_id: false,
            handshake_completed: false,
            draining: false,
        };
        assert(conn@.streams =~= Seq::<(u64, StreamState)>::empty());
        if !is_server {
            let (open, seal) = match derive_initial_key_material(dcid, false) {
                Ok(k) => k,
                Err(e) => return Err(e),
            };
            conn.dcid = copy_range(dcid, 0, dcid.len());
            assert(conn.dcid@ =~= dcid@);
            conn.initial.install_keys(open, seal);
            conn.derived_initial_secrets = true;
        }
        Ok(Box::new(conn))
    }

    /// Takes note of what one step of the handshake reported.
    pub fn do_handshake(&mut self, outcome: &Outcome) -> (r: Result<(), Error>)
        requires
            old(self).wf(),
        ensures
            final(self).wf(),
            (final(self)@, r) == pumped(old(self)@, outcome@),
    {
        if self.handshake_completed {
            return Ok(());
        }
        match outcome {
            Outcome::Complete { peer_params } => {
                self.handshake_completed = true;
                let raw = match peer_params {
                    Some(raw) => raw,
                    None => return Err(Error::TlsFail),
                };
                let p = match TransportParams::decode(raw.as_slice(), self.version,
                    self.is_server) {
                    Ok(p) => p,
                    Err(e) => return Err(e),
                };
                self.peer_transport_params = p;
                self.max_tx_data = p.initial_max_data as u64;
                proof {
                    crate::params::lemma_decoded_token_len(raw@, self.is_server);
                }
                Ok(())
            },
            Outcome::WantRead => Ok(()),
            Outcome::WantWrite => Ok(()),
            Outcome::PendingOperation => Err(Error::Again),
            Outcome::TlsFail => Err(Error::TlsFail),
            Outcome::SyscallFail => Err(Error::TlsFail),
        }
    }

    /// The place of the stream `id` in the table.
    fn find_stream(&self, id: u64) -> (r: Option<usize>)
        ensures
            match r {
                Some(i) => find(self@.streams, id) == Some(i as int) && i < self.streams@.len()
                    && self.streams@[i as int].0 == id,
                None => find(self@.streams, id).is_none(),
            },
    {
        let mut i: usize = 0;
        while i < self.streams.len()
            invariant
                0 <= i <= self.streams@.len(),
                position(self@.streams, id, 0) == position(self@.streams, id, i as int),
            decreases self.streams@.len() - i,
        {
            assert(self@.streams[i as int].0 == self.streams@[i as int].0);
            if self.streams[i].0 == id {
                return Some(i);
            }
            i += 1;
        }
        None
    }

    /// The place of the stream `id` in the table, where it is put first if
    /// it is not there yet.
    fn find_or_create(&mut self, id: u64) -> (i: usize)
        requires
            old(self).wf(),
            id <= MAX_VARINT,
        ensures
            final(self).wf(),
            final(self)@ == (ConnView { streams: old(self)@.with_stream(id), ..old(self)@ }),
            find(final(self)@.streams, id) == Some(i as int),
            i < final(self).streams@.len(),
            final(self).streams@[i as int].0 == id,
    {
        match self.find_stream(id) {
            Some(i) => i,
            None => {
                let s = Stream::new(
                    self.local_transport_params.initial_max_stream_data_bidi_local as u64,
                    self.peer_transport_params.initial_max_stream_data_bidi_remote as u64,
                );
                let ghost before = self@.streams;
                self.streams.push((id, s));
                proof {
                    let after = self@.streams;
                    assert(after =~= before.push((id, old(self)@.fresh_stream())));
                    lemma_position(before, id, 0);
                    lemma_position(after, id, 0);
                    assert(after[before.len() as int].0 == id);
                    assert forall|i: int, j: int| 0 <= i < j < after.len() implies (
                    #[trigger] after[i]).0 != (#[trigger] after[j]).0 by {
                        if j < before.len() {
                            assert(before[i].0 != before[j].0);
                        } else {
                            assert(before[i].0 != id);
                        }
                    }
                }
                self.streams.len() - 1
            },
        }
    }

    /// Queues `buf` for sending on the stream `stream_id`, and with `fin`
    /// marks it as the stream's last.
    pub fn stream_send(&mut self, stream_id: u64, buf: &[u8], fin: bool) -> (r: Result<
        usize,
        Error,
    >)
        requires
            old(self).wf(),
        ensures
            final(self).wf(),
            (final(self)@, r) == stream_sent(old(self)@, stream_id, buf@, fin),
    {
        if stream_id > MAX_VARINT {
            return Err(Error::UnknownStream);
        }
        let i = self.find_or_create(stream_id);
        let ghost t = self@.streams;
        assert(t[i as int] == (self.streams@[i as int].0, self.streams@[i as int].1@));
        assert(t[i as int].1.wf());
        let e = self.streams.remove(i);
        let mut s = e.1;
        let r = s.push_send(buf, fin);
        self.streams.insert(i, (stream_id, s));
        proof {
            let after = self@.streams;
            assert(after =~= t.update(i as int, (stream_id, s@)));
            assert forall|a: int, b: int| 0 <= a < b < after.len() implies (#[trigger] after[a]).0
                != (#[trigger] after[b]).0 by {
                assert(t[a].0 != t[b].0);
            }
            assert forall|k: int| 0 <= k < after.len() implies (#[trigger] after[k]).1.wf()
                && after[k].0 <= MAX_VARINT && after[k].1.window == self@.stream_window() by {
                if k != i {
                    assert(after[k] == t[k]);
                }
            }
            if r.is_err() {
                assert(after =~= t);
            }
        }
        r
    }

    /// The bytes that stand ready to be read on the stream `stream_id`, as
    /// far as they follow one another without a gap; an empty buffer where
    /// none stand ready.
    pub fn stream_recv(&mut self, stream_id: u64) -> (r: Result<RangeBuf, Error>)
        requires
            old(self).wf(),
        ensures
            final(self).wf(),
            match find(old(self)@.streams, stream_id) {
                None => r matches Err(e) && e == Error::UnknownStream && final(self)@ == old(self)@,
                Some(i) => {
                    let s = old(self)@.streams[i].1;
                    let n = crate::stream::run_len(s.recv, s.recv_off);
                    &&& r matches Ok(buf)
                    &&& if s.can_read() {
                        &&& buf@.data == crate::stream::flat(s.recv, n)
                        &&& buf@.off == s.recv_off
                        &&& buf@.fin == (s.fin_off == Some(s.recv_off + buf@.data.len()))
                        &&& final(self)@ == (ConnView {
                            streams: old(self)@.streams.update(
                                i,
                                (
                                    stream_id,
                                    StreamState {
                                        recv: s.recv.skip(n),
                                        recv_off: s.recv_off + buf@.data.len(),
                                        ..s
                                    },
                                ),
                            ),
                            ..old(self)@
                        })
                    } else {
                        buf@ == (Chunk { data: Seq::empty(), off: 0, fin: false }) && final(self)@
                            == old(self)@
                    }
                },
            },
    {
        let i = match self.find_stream(stream_id) {
            Some(i) => i,
            None => return Err(Error::UnknownStream),
        };
        let ghost t = self@.streams;
        assert(t[i as int].1 == self.streams@[i as int].1@);
        if !self.streams[i].1.can_read() {
            return Ok(RangeBuf::default());
        }
        let e = self.streams.remove(i);
        let mut s = e.1;
        let buf = s.pop_recv();
        self.streams.insert(i, (stream_id, s));
        proof {
            let after = self@.streams;
            assert(after =~= t.update(i as int, (stream_id, s@)));
            assert forall|a: int, b: int| 0 <= a < b < after.len() implies (#[trigger] after[a]).0
                != (#[trigger] after[b]).0 by {
                assert(t[a].0 != t[b].0);
            }
            assert forall|k: int| 0 <= k < after.len() implies (#[trigger] after[k]).1.wf()
                && after[k].0 <= MAX_VARINT && after[k].1.window == self@.stream_window() by {
                if k != i {
                    assert(after[k] == t[k]);
                }
            }
        }
        Ok(buf)
    }

    /// The IDs of the streams that have bytes ready to be read, in the
    /// order in which the streams came to be.
    pub fn stream_iter(&self) -> (r: Vec<u64>)
        ensures
            r@ == readable_upto(self@.streams, self@.streams.len() as int),
    {
        let mut r: Vec<u64> = Vec::new();
        let mut i: usize = 0;
        while i < self.streams.len()
            invariant
                0 <= i <= self.streams@.len(),
                r@ == readable_upto(self@.streams, i as int),
            decreases self.streams@.len() - i,
        {
            assert(self@.streams[i as int]
                == (self.streams@[i as int].0, self.streams@[i as int].1@));
            if self.streams[i].1.can_read() {
                r.push(self.streams[i].0);
            }
            i += 1;
        }
        r
    }

    /// The connection ID of this side.
    pub fn local_conn_id(&self) -> (r: &[u8])
        ensures
            r@ == self@.scid,
    {
        self.scid.as_slice()
    }

    /// Whether the handshake is complete.
    pub fn is_established(&self) -> (r: bool)
        ensures
            r == self@.handshake_completed,
    {
        self.handshake_completed
    }

    /// Whether the peer has closed the connection.
    pub fn is_draining(&self) -> (r: bool)
        ensures
            r == self@.draining,
    {
        self.draining
    }

    /// A name for the connection in traces: this side's connection ID in
    /// hexadecimal digits.
    pub fn trace_id(&self) -> (r: String)
        ensures
            r@ == hex(self@.scid),
    {
        let mut r = String::new();
        let mut i: usize = 0;
        while i < self.scid.len()
            invariant
                0 <= i <= self.scid@.len(),
                r@ == hex(self.scid@.take(i as int)),
            decreases self.scid@.len() - i,
        {
            let b: u8 = self.scid[i];
            r.push(hex_char(b / 16));
            r.push(hex_char(b % 16));
            i += 1;
            assert(r@ =~= hex(self.scid@.take(i as int)));
        }
        assert(self.scid@.take(self.scid@.len() as int) =~= self.scid@);
        r
    }
}

impl Conn {
    /// The space of the given stage.
    fn space_ref(&self, level: Level) -> (r: &PktNumSpace)
        ensures
            r@ == self@.space(level),
    {
        match level {
            Level::Initial => &self.initial,
            Level::Handshake => &self.handshake,
            Level::Application => &self.application,
        }
    }

    /// Takes the `i`-th stream out of the table.
    fn take_stream(&mut self, i: usize) -> (r: (u64, Stream))
        requires
            old(self).wf(),
            i < old(self)@.streams.len(),
        ensures
            final(self).wf(),
            r.1.wf(),
            r.0 <= MAX_VARINT,
            (r.0, r.1@) == old(self)@.streams[i as int],
            final(self)@
                == (ConnView { streams: old(self)@.streams.remove(i as int), ..old(self)@ }),
    {
        let ghost t = self@.streams;
        assert(t[i as int] == (self.streams@[i as int].0, self.streams@[i as int].1@));
        let e = self.streams.remove(i);
        proof {
            let after = self@.streams;
            assert(after =~= t.remove(i as int));
            assert forall|a: int, b: int| 0 <= a < b < after.len() implies (#[trigger] after[a]).0
                != (#[trigger] after[b]).0 by {
                let a0 = if a < i { a } else { a + 1 };
                let b0 = if b < i { b } else { b + 1 };
                assert(t[a0].0 != t[b0].0);
            }
            assert forall|k: int| 0 <= k < after.len() implies (#[trigger] after[k]).1.wf()
                && after[k].0 <= MAX_VARINT && after[k].1.window == self@.stream_window() by {
                let k0 = if k < i { k } else { k + 1 };
                assert(after[k] == t[k0]);
            }
        }
        e
    }

    /// Puts a stream into the table as the `i`-th.
    fn put_stream(&mut self, i: usize, id: u64, s: Stream)
        requires
            old(self).wf(),
            i <= old(self)@.streams.len(),
            s.wf(),
            id <= MAX_VARINT,
            s@.window == old(self)@.stream_window(),
            forall|k: int| 0 <= k < old(self)@.streams.len()
                ==> (#[trigger] old(self)@.streams[k]).0 != id,
        ensures
            final(self).wf(),
            final(self)@ == (ConnView {
                streams: old(self)@.streams.insert(i as int, (id, s@)),
                ..old(self)@
            }),
    {
        let ghost t = self@.streams;
        self.streams.insert(i, (id, s));
        proof {
            let after = self@.streams;
            assert(after =~= t.insert(i as int, (id, s@)));
            assert forall|a: int, b: int| 0 <= a < b < after.len() implies (#[trigger] after[a]).0
                != (#[trigger] after[b]).0 by {
                let a0 = if a < i { a } else { a - 1 };
                let b0 = if b < i { b } else { b - 1 };
                if a != i && b != i {
                    assert(t[a0].0 != t[b0].0);
                } else if a == i {
                    assert(t[b0].0 != id);
                } else {
                    assert(t[a0].0 != id);
                }
            }
            assert forall|k: int| 0 <= k < after.len() implies (#[trigger] after[k]).1.wf()
                && after[k].0 <= MAX_VARINT && after[k].1.window == self@.stream_window() by {
                if k != i {
                    let k0 = if k < i { k } else { k - 1 };
                    assert(after[k] == t[k0]);
                }
            }
        }
    }
}

/// No other stream of a table has the ID of the `i`-th.
pub proof fn lemma_unique(t: Seq<(u64, StreamState)>, i: int)
    requires
        0 <= i < t.len(),
        forall|a: int, b: int| 0 <= a < b < t.len() ==> (#[trigger] t[a]).0 != (#[trigger] t[b]).0,
    ensures
        forall|k: int| 0 <= k < t.remove(i).len() ==> (#[trigger] t.remove(i)[k]).0 != t[i].0,
        t.remove(i).insert(i, t[i]) == t,
{
    assert forall|k: int| 0 <= k < t.remove(i).len()
        implies (#[trigger] t.remove(i)[k]).0 != t[i].0 by {
        if k < i {
            assert(t.remove(i)[k] == t[k]);
            assert(t[k].0 != t[i].0);
        } else {
            assert(t.remove(i)[k] == t[k + 1]);
            assert(t[i].0 != t[k + 1].0);
        }
    }
    assert(t.remove(i).insert(i, t[i]) =~= t);
}

/// The hexadecimal digit for a number below sixteen.
fn hex_char(n: u8) -> (c: char)
    requires
        n < 16,
    ensures
        c == hex_digit(n),
{
    if n < 10 {
        (0x30 + n) as char
    } else {
        (0x57 + n) as char
    }
}

} // verus!
