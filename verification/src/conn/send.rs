//! The way out: how a connection fills a packet.

use vstd::prelude::*;
use crate::Error;
use crate::conn::{Conn, ConnView, pumped};
use crate::crypto::{KeysView, Level};
use crate::frame::{
    frames_bytes, lemma_frames_bytes_push, Frame, FrameView, MAX_CRYPTO_OVERHEAD,
    MAX_STREAM_OVERHEAD,
};
use crate::octets::{append, varint_bytes, MAX_VARINT};
use crate::packet::{
    lemma_space_bounds, long_header_bytes, sealed_packet, short_header_bytes, spec_pkt_num_len,
    HeaderView, SpaceView, MAX_PKT_NUM,
};
use crate::stream::{lemma_stream_bounds, StreamState, MAX_OFFSET};
use crate::roundtrip::{as_read_all, separable};
use crate::tls::{Outcome, OutcomeView};

verus! {

/// A packet in the making: the connection as it is once the frames so far
/// are on their way, the frames, and the room that is left for more.
pub struct Draft {
    pub conn: ConnView,
    pub frames: Seq<FrameView>,
    pub left: int,
}

impl Draft {
    /// The draft with one more frame, which leaves the connection as `c`.
    pub open spec fn with_frame(self, c: ConnView, f: FrameView) -> Draft {
        Draft { conn: c, frames: self.frames.push(f), left: self.left - f.bytes().len() }
    }
}

/// The draft after the acknowledgement was looked at: where one is owed
/// and fits, it goes in with all packet numbers received, and none is owed
/// any more.
pub open spec fn ack_step(d: Draft, level: Level) -> Draft {
    let sp = d.conn.space(level);
    let f = FrameView::Ack { ack_delay: 0, ranges: sp.recv_pkt_num };
    if sp.do_ack && f.bytes().len() <= d.left {
        d.with_frame(
            d.conn.with_space(
                level,
                SpaceView { recv_pkt_num: Seq::empty(), do_ack: false, ..sp },
            ),
            f,
        )
    } else {
        d
    }
}

/// The draft after the handshake data was looked at: where some waits
/// and more room is left than a CRYPTO frame takes besides its data, the
/// oldest of it goes in, as much as fits.
pub open spec fn crypto_step(d: Draft, level: Level) -> Draft {
    let sp = d.conn.space(level);
    let cs = sp.crypto_stream;
    if cs.can_write() && d.left > MAX_CRYPTO_OVERHEAD {
        let room = d.left - MAX_CRYPTO_OVERHEAD;
        d.with_frame(
            d.conn.with_space(
                level,
                SpaceView {
                    crypto_stream: StreamState { send: cs.behind_head(room), ..cs },
                    ..sp
                },
            ),
            FrameView::Crypto { data: cs.head(room) },
        )
    } else {
        d
    }
}

/// The draft after the padding of a client's first packet was looked
/// at. Until a client has sent a packet, its packet is filled with padding
/// until what follows the header, packet number and tag included, takes
/// `CLIENT_INITIAL_MIN_LEN` bytes, or until no room is left.
pub open spec fn padding_step(d: Draft, pn_len: int) -> Draft {
    let c = d.conn;
    let length = pn_len + 16 + frames_bytes(d.frames).len();
    let want = if length < crate::CLIENT_INITIAL_MIN_LEN {
        crate::CLIENT_INITIAL_MIN_LEN - length
    } else {
        0
    };
    let len = if want < d.left {
        want
    } else {
        d.left
    };
    if c.is_server || c.sent_initial {
        d
    } else if len > 0 {
        d.with_frame(ConnView { sent_initial: true, ..c }, FrameView::Padding { len })
    } else if d.frames.len() > 0 {
        Draft { conn: ConnView { sent_initial: true, ..c }, ..d }
    } else {
        d
    }
}

/// The limit on the connection's data that is announced next.
pub open spec fn next_max_data(c: ConnView) -> u64 {
    let max = c.rx_data + c.local_transport_params.initial_max_data;
    if max <= MAX_VARINT {
        max as u64
    } else {
        MAX_VARINT
    }
}

/// The draft after the connection's limit was looked at: in a packet of
/// the last stage, where less than two packets' worth is left below the
/// limit, a new limit goes in, if it fits.
pub open spec fn max_data_step(d: Draft, level: Level) -> Draft {
    let c = d.conn;
    let f = FrameView::MaxData { max: next_max_data(c) };
    if level == Level::Application && c.rx_data + 2 * crate::MAX_PKT_LEN > c.max_rx_data
        && f.bytes().len() <= d.left {
        d.with_frame(ConnView { max_rx_data: next_max_data(c), ..c }, f)
    } else {
        d
    }
}

/// The draft after the limit of the `i`-th stream was looked at: where
/// more than half of the window below the limit was read, the limit is
/// raised by the window, and the new limit goes in, if it fits.
pub open spec fn credit_step(d: Draft, i: int) -> Draft {
    let e = d.conn.streams[i];
    let s = e.1;
    let f = FrameView::MaxStreamData { stream_id: e.0, max: s.raised_limit() as u64 };
    if s.more_credit() && f.bytes().len() <= d.left {
        d.with_frame(
            ConnView {
                streams: d.conn.streams.update(
                    i,
                    (e.0, StreamState { max_rx_data: s.raised_limit(), ..s }),
                ),
                ..d.conn
            },
            f,
        )
    } else {
        d
    }
}

/// The draft after the limits of the streams from the `i`-th on were
/// looked at, in a packet of the last stage.
pub open spec fn credit_steps(d: Draft, level: Level, i: int) -> Draft
    decreases d.conn.streams.len() - i,
{
    if level != Level::Application || i < 0 || i >= d.conn.streams.len() {
        d
    } else {
        credit_steps(credit_step(d, i), level, i + 1)
    }
}

/// The number of bytes that the `i`-th stream may send in the packet: no
/// more than the connection may send, than the stream may send, and than
/// fit besides what a STREAM frame takes.
pub open spec fn stream_room(d: Draft, i: int) -> int {
    let c = d.conn;
    let s = c.streams[i].1;
    let a = c.max_tx_data - c.tx_data;
    let b = s.max_tx_data - s.tx_data;
    let r = if d.left > MAX_STREAM_OVERHEAD {
        d.left - MAX_STREAM_OVERHEAD
    } else {
        0
    };
    let ab = if a < b {
        a
    } else {
        b
    };
    if ab < r {
        ab
    } else {
        r
    }
}

/// The first stream from the `i`-th on that has bytes to send and may
/// send some.
pub open spec fn first_sendable(d: Draft, i: int) -> Option<int>
    decreases d.conn.streams.len() - i,
{
    if i < 0 || i >= d.conn.streams.len() {
        None
    } else if d.conn.streams[i].1.can_write() && stream_room(d, i) > 0 {
        Some(i)
    } else {
        first_sendable(d, i + 1)
    }
}

/// The draft after the streams were looked at: in a packet of the last
/// stage, once the handshake is complete, the first stream that has bytes to
/// send and may send some gives its oldest bytes, as many as it may.
pub open spec fn stream_step(d: Draft, level: Level) -> Draft {
    if level != Level::Application || !d.conn.handshake_completed {
        d
    } else {
        match first_sendable(d, 0) {
            None => d,
            Some(i) => {
                let c = d.conn;
                let e = c.streams[i];
                let s = e.1;
                let room = stream_room(d, i);
                let chunk = s.head(room);
                d.with_frame(
                    ConnView {
                        tx_data: (c.tx_data + chunk.data.len()) as u64,
                        streams: c.streams.update(
                            i,
                            (
                                e.0,
                                StreamState {
                                    send: s.behind_head(room),
                                    tx_data: s.tx_data + chunk.data.len(),
                                    ..s
                                },
                            ),
                        ),
                        ..c
                    },
                    FrameView::Stream { stream_id: e.0, data: chunk },
                )
            },
        }
    }
}

/// The draft after its length was looked at: packet number and frames
/// must take four bytes at least, so that the sample for the header's mask
/// lies within the packet; frames that take less are followed by padding.
pub open spec fn min_pad_step(d: Draft, pn_len: int) -> Draft {
    let have = frames_bytes(d.frames).len();
    if d.frames.len() > 0 && pn_len + have < 4 {
        d.with_frame(d.conn, FrameView::Padding { len: 4 - pn_len - have })
    } else {
        d
    }
}

/// The draft of a packet of the given stage, with room for `left` bytes
/// of frames: the frames that the connection `c` has to send, in their
/// order.
#[verifier::opaque]
pub open spec fn drafted(c: ConnView, level: Level, pn_len: int, left: int) -> Draft {
    let d0 = Draft { conn: c, frames: Seq::empty(), left };
    let d1 = ack_step(d0, level);
    let d2 = crypto_step(d1, level);
    let d3 = padding_step(d2, pn_len);
    let d4 = max_data_step(d3, level);
    let d5 = credit_steps(d4, level, 0);
    let d6 = stream_step(d5, level);
    min_pad_step(d6, pn_len)
}

/// Whether one of the streams has bytes to send.
pub open spec fn any_writable(t: Seq<(u64, StreamState)>) -> bool {
    exists|i: int| 0 <= i < t.len() && (#[trigger] t[i]).1.can_write()
}

/// Whether the limit of one of the streams should be raised.
pub open spec fn any_more_credit(t: Seq<(u64, StreamState)>) -> bool {
    exists|i: int| 0 <= i < t.len() && (#[trigger] t[i]).1.more_credit()
}

/// The stage whose space sends the next packet: the first stage, then the
/// second, where it has handshake data or an acknowledgement to send; the
/// last, once the handshake is complete, where it has one of these, or a
/// stream has bytes to send, or the limit of a stream should be raised.
pub open spec fn send_level(c: ConnView) -> Option<Level> {
    if c.initial.has_work() {
        Some(Level::Initial)
    } else if c.handshake.has_work() {
        Some(Level::Handshake)
    } else if c.handshake_completed && (c.application.has_work() || any_writable(c.streams)
        || any_more_credit(c.streams)) {
        Some(Level::Application)
    } else {
        None
    }
}

/// The header of the next packet of the given stage, as it is written: a
/// short header at the last stage, a long one before.
pub open spec fn head_bytes(c: ConnView, level: Level) -> Option<Seq<u8>> {
    let h = HeaderView {
        ty: c.space(level).pkt_type,
        version: c.version,
        flags: 0,
        dcid: c.dcid,
        scid: c.scid,
        token: None,
    };
    if level == Level::Application {
        Some(short_header_bytes(h))
    } else {
        long_header_bytes(h)
    }
}

/// What is settled of a packet before its frames are chosen.
pub struct Plan {
    /// The stage whose space sends the packet.
    pub level: Level,
    /// The header as it is written.
    pub head: Seq<u8>,
    /// The keys that seal the packet.
    pub keys: KeysView,
    /// The packet's number.
    pub pn: u64,
    /// The number of bytes that carry the packet's number.
    pub pn_len: int,
    /// The room for frames.
    pub left: int,
}

/// The plan of the next packet of the connection `c`, for a buffer of
/// `cap` bytes; or why there is none. No packet is longer than the peer
/// takes. Besides the header, room is kept for a length of four bytes, for
/// the packet number and for the tag, and what is left must hold three
/// bytes of frames.
#[verifier::opaque]
pub open spec fn planned(c: ConnView, cap: int) -> Result<Plan, Error> {
    let avail = if c.peer_transport_params.max_packet_size < cap {
        c.peer_transport_params.max_packet_size as int
    } else {
        cap
    };
    match send_level(c) {
        None => Err(Error::NothingToDo),
        Some(level) => {
            let sp = c.space(level);
            match head_bytes(c, level) {
                None => Err(Error::InvalidPacket),
                Some(head) => if sp.last_pkt_num >= MAX_PKT_NUM {
                    Err(Error::InvalidPacket)
                } else {
                    match sp.crypto_seal {
                        None => Err(Error::InvalidState),
                        Some(keys) => {
                            let pn = sp.last_pkt_num;
                            let pn_len = spec_pkt_num_len(pn, sp.largest_rx_pkt_num);
                            let left = avail - head.len() - 4 - pn_len - 16;
                            if left < 3 {
                                Err(Error::BufferTooShort)
                            } else {
                                Ok(Plan { level, head, keys, pn, pn_len, left })
                            }
                        },
                    }
                },
            }
        },
    }
}

/// The next packet of the connection `c`, for a buffer of `cap` bytes,
/// and the connection once the packet is on its way; or why there is none.
/// The packet is protected with the keys of its stage; where protecting
/// fails, the frames are lost.
#[verifier::opaque]
pub open spec fn packet_out(c: ConnView, cap: int) -> Result<(ConnView, Option<Seq<u8>>), Error> {
    match planned(c, cap) {
        Err(e) => Err(e),
        Ok(p) => {
            let d = drafted(c, p.level, p.pn_len, p.left);
            if d.frames.len() == 0 {
                Err(Error::NothingToDo)
            } else {
                Ok(
                    (
                        d.conn.with_space(
                            p.level,
                            SpaceView {
                                last_pkt_num: (p.pn + 1) as u64,
                                ..d.conn.space(p.level)
                            },
                        ),
                        sealed_packet(
                            p.keys,
                            p.head,
                            p.level != Level::Application,
                            p.pn,
                            p.pn_len,
                            frames_bytes(d.frames),
                        ),
                    ),
                )
            }
        },
    }
}

/// Whether the packet `p` is one that the peer can open and read: it
/// opens, with the keys of the stage that the connection `c` sends at next,
/// to the number and the bytes of the frames of the packet that `c` sends
/// next, for a buffer of `cap` bytes; these bytes hold these frames; and
/// the packet shows its header.
pub open spec fn peer_can_open(c: ConnView, cap: int, p: Seq<u8>) -> bool {
    match planned(c, cap) {
        Err(_) => false,
        Ok(pl) => {
            let frames = drafted(c, pl.level, pl.pn_len, pl.left).frames;
            &&& crate::packet::opens_to(
                pl.keys,
                p,
                pl.level != Level::Application,
                pl.pn,
                pl.pn_len,
                frames_bytes(frames),
            )
            &&& crate::frame::frames_at(frames_bytes(frames), 0) == Ok::<Seq<FrameView>, Error>(
                as_read_all(frames),
            )
            &&& crate::packet::framed(
                p,
                pl.head,
                pl.level != Level::Application,
                pl.pn_len,
                frames_bytes(frames).len() as int,
            )
            &&& p.len() <= 0xffff
        },
    }
}

/// The connection after it was asked for a datagram, the buffer that was
/// given for it, and what the caller is told: the number of bytes of the
/// packet, which stands at the start of the buffer. Before a packet is
/// made, the handshake's report `o` is taken note of. A connection that is
/// draining sends nothing.
pub open spec fn sent(c: ConnView, out: Seq<u8>, o: OutcomeView) -> (
    ConnView,
    Seq<u8>,
    Result<usize, Error>,
) {
    if out.len() == 0 {
        (c, out, Err(Error::BufferTooShort))
    } else if c.draining {
        (c, out, Err(Error::NothingToDo))
    } else {
        let (c1, r) = pumped(c, o);
        match r {
            Err(e) => (c1, out, Err(e)),
            Ok(_) => match packet_out(c1, out.len() as int) {
                Err(e) => (c1, out, Err(e)),
                Ok((c2, None)) => (c2, out, Err(Error::CryptoFail)),
                Ok((c2, Some(p))) => (c2, p + out.skip(p.len() as int), Ok(p.len() as usize)),
            },
        }
    }
}

/// Frames in the making.
pub struct Builder {
    payload: Vec<u8>,
    left: u64,
    budget: u64,
    pn_len: usize,
    any: bool,
    frames: Ghost<Seq<FrameView>>,
}

impl Builder {
    /// The frames.
    pub closed spec fn frames(&self) -> Seq<FrameView> {
        self.frames@
    }

    /// The room that is left.
    pub closed spec fn left(&self) -> int {
        self.left as int
    }

    /// The bytes of the frames.
    pub closed spec fn payload(&self) -> Seq<u8> {
        self.payload@
    }

    /// The payload holds the bytes of the frames.
    pub closed spec fn wf(&self) -> bool {
        &&& self.payload@ == frames_bytes(self.frames@)
        &&& self.any <==> self.frames@.len() > 0
        &&& self.left + self.payload@.len() == self.budget
        &&& 3 <= self.budget <= 0xffff
        &&& 1 <= self.pn_len <= 4
        &&& separable(self.frames@)
        &&& (self.ends_with_padding() ==> self.pn_len + self.payload@.len() >= 4)
    }

    /// Whether the last frame is padding.
    pub closed spec fn ends_with_padding(&self) -> bool {
        self.frames@.len() > 0 && self.frames@.last() is Padding
    }

    /// The number of bytes that carry the packet number of the packet.
    pub closed spec fn pn_len(&self) -> int {
        self.pn_len as int
    }

    /// The room that there was at first.
    pub closed spec fn budget(&self) -> int {
        self.budget as int
    }

    /// The draft of the connection `c` with these frames.
    pub open spec fn draft(&self, c: ConnView) -> Draft {
        Draft { conn: c, frames: self.frames(), left: self.left() }
    }

    /// No frames, with room for `left` bytes.
    fn new(left: u64, pn_len: usize) -> (b: Builder)
        requires
            3 <= left <= 0xffff,
            1 <= pn_len <= 4,
        ensures
            b.wf(),
            b.frames() == Seq::<FrameView>::empty(),
            b.left() == left,
            b.budget() == left,
            b.pn_len() == pn_len,
            !b.ends_with_padding(),
    {
        Builder {
            payload: Vec::new(),
            left,
            budget: left,
            pn_len,
            any: false,
            frames: Ghost(Seq::empty()),
        }
    }

    /// The number of bytes that the frames take.
    fn len(&self) -> (n: u64)
        requires
            self.wf(),
        ensures
            n == frames_bytes(self.frames()).len(),
            n + self.left() == self.budget(),
            3 <= self.budget() <= 0xffff,
            self.ends_with_padding() ==> self.pn_len() + n >= 4,
            separable(self.frames()),
    {
        self.payload.len() as u64
    }

    /// Whether there is no frame.
    fn is_empty(&self) -> (r: bool)
        requires
            self.wf(),
        ensures
            r == (self.frames().len() == 0),
    {
        !self.any
    }

    /// The room that is left.
    fn room(&self) -> (n: u64)
        requires
            self.wf(),
        ensures
            n == self.left(),
            n <= 0xffff,
    {
        self.left
    }

    /// Whether the frame `f` fits.
    fn fits(&self, f: &Frame) -> (r: bool)
        requires
            f.wf(),
        ensures
            r == (f@.bytes().len() <= self.left()),
    {
        f.wire_len() <= self.left
    }

    /// Adds the frame `f`. Padding is added only where it can be told
    /// apart from what stands before it, and where it makes the packet long
    /// enough for the sample of its header's mask.
    fn push(&mut self, f: &Frame)
        requires
            old(self).wf(),
            f.wf(),
            f@.bytes().len() <= old(self).left(),
            f@ matches FrameView::Padding { len } ==> len > 0 && !old(self).ends_with_padding()
                && old(self).pn_len() + frames_bytes(old(self).frames()).len() + len >= 4,
        ensures
            final(self).wf(),
            final(self).frames() == old(self).frames().push(f@),
            final(self).left() == old(self).left() - f@.bytes().len(),
            final(self).budget() == old(self).budget(),
            final(self).pn_len() == old(self).pn_len(),
            final(self).ends_with_padding() == (f@ is Padding),
    {
        let e = f.encode();
        append(&mut self.payload, e.as_slice());
        self.left = self.left - e.len() as u64;
        self.any = true;
        proof {
            let before = self.frames@;
            lemma_frames_bytes_push(before, f@);
            self.frames@ = before.push(f@);
            let after = self.frames@;
            assert forall|k: int| 0 <= k < after.len() implies (#[trigger] after[k]).wf() && (
            after[k] matches FrameView::Padding { len } ==> len > 0) by {
                if k < before.len() {
                    assert(after[k] == before[k]);
                }
            }
            assert forall|k: int, j: int|
                0 <= k < after.len() && j == k + 1 && j < after.len() && (
                #[trigger] after[k]) is Padding implies !(#[trigger] after[j] is Padding) by {
                assert(after[k] == before[k]);
                if j < before.len() {
                    assert(after[j] == before[j]);
                }
            }
        }
    }
}

impl Conn {
    /// Forgets, in the space of the given stage, the packet numbers that
    /// wait to be acknowledged.
    fn clear_ack(&mut self, level: Level)
        requires
            old(self).wf(),
        ensures
            final(self).wf(),
            final(self)@ == old(self)@.with_space(
                level,
                SpaceView {
                    recv_pkt_num: Seq::empty(),
                    do_ack: false,
                    ..old(self)@.space(level)
                },
            ),
    {
        match level {
            Level::Initial => self.initial.clear_ack(),
            Level::Handshake => self.handshake.clear_ack(),
            Level::Application => self.application.clear_ack(),
        }
    }

    /// Takes out, in the space of the given stage, the handshake data that
    /// the next packet can take when it has room for `room` bytes.
    fn pop_crypto(&mut self, level: Level, room: usize) -> (r: crate::stream::RangeBuf)
        requires
            old(self).wf(),
        ensures
            final(self).wf(),
            r.wf(),
            r@ == old(self)@.space(level).crypto_stream.head(room as int),
            final(self)@ == old(self)@.with_space(
                level,
                SpaceView {
                    crypto_stream: StreamState {
                        send: old(self)@.space(level).crypto_stream.behind_head(room as int),
                        ..old(self)@.space(level).crypto_stream
                    },
                    ..old(self)@.space(level)
                },
            ),
    {
        match level {
            Level::Initial => self.initial.pop_crypto(room),
            Level::Handshake => self.handshake.pop_crypto(room),
            Level::Application => self.application.pop_crypto(room),
        }
    }

    /// Puts the acknowledgement into the packet, where one is owed and
    /// fits.
    fn step_ack(&mut self, level: Level, b: &mut Builder)
        requires
            old(self).wf(),
            old(b).wf(),
        ensures
            final(self).wf(),
            final(b).wf(),
            final(b).draft(final(self)@) == ack_step(old(b).draft(old(self)@), level),
            final(b).budget() == old(b).budget(),
            final(b).pn_len() == old(b).pn_len(),
            final(b).ends_with_padding() ==> old(b).ends_with_padding(),
            final(b).frames().len() >= old(b).frames().len(),
            final(b).frames().len() == 0 ==> final(self)@ == old(self)@,
    {
        let space = self.space_ref(level);
        if !space.do_ack {
            return ;
        }
        proof {
            lemma_space_bounds(self@.space(level));
        }
        let f = Frame::ACK { ack_delay: 0, ranges: space.ack_ranges() };
        if !b.fits(&f) {
            return ;
        }
        b.push(&f);
        self.clear_ack(level);
    }

    /// Puts handshake data into the packet, where some waits and fits.
    fn step_crypto(&mut self, level: Level, b: &mut Builder)
        requires
            old(self).wf(),
            old(b).wf(),
        ensures
            final(self).wf(),
            final(b).wf(),
            final(b).draft(final(self)@) == crypto_step(old(b).draft(old(self)@), level),
            final(b).budget() == old(b).budget(),
            final(b).pn_len() == old(b).pn_len(),
            final(b).ends_with_padding() ==> old(b).ends_with_padding(),
            final(b).frames().len() >= old(b).frames().len(),
            final(b).frames().len() == 0 ==> final(self)@ == old(self)@,
    {
        let space = self.space_ref(level);
        proof {
            lemma_space_bounds(self@.space(level));
            lemma_stream_bounds(self@.space(level).crypto_stream);
        }
        if !space.crypto_stream.can_write() || b.room() <= MAX_CRYPTO_OVERHEAD {
            return ;
        }
        let room: usize = (b.room() - MAX_CRYPTO_OVERHEAD) as usize;
        let data = self.pop_crypto(level, room);
        let f = Frame::Crypto { data };
        b.push(&f);
    }
}


impl Conn {
    /// Pads a client's first packet.
    fn step_padding(&mut self, pn_len: usize, b: &mut Builder)
        requires
            old(self).wf(),
            old(b).wf(),
            1 <= pn_len <= 4,
            pn_len == old(b).pn_len(),
            !old(b).ends_with_padding(),
        ensures
            final(self).wf(),
            final(b).wf(),
            final(b).draft(final(self)@) == padding_step(old(b).draft(old(self)@), pn_len as int),
            final(b).budget() == old(b).budget(),
            final(b).pn_len() == old(b).pn_len(),
            final(b).frames().len() >= old(b).frames().len(),
            final(b).frames().len() == 0 ==> final(self)@ == old(self)@,
    {
        if self.is_server || self.sent_initial {
            return ;
        }
        let length: u64 = pn_len as u64 + 16 + b.len();
        let want: u64 = if length < 1200 {
            1200 - length
        } else {
            0
        };
        let len: u64 = if want < b.room() {
            want
        } else {
            b.room()
        };
        if len > 0 {
            let f = Frame::Padding { len: len as usize };
            assert(f@.bytes().len() == len);
            b.push(&f);
            self.sent_initial = true;
        } else if !b.is_empty() {
            self.sent_initial = true;
        }
    }

    /// Announces a new limit on the connection's data, where it is time.
    fn step_max_data(&mut self, level: Level, b: &mut Builder)
        requires
            old(self).wf(),
            old(b).wf(),
        ensures
            final(self).wf(),
            final(b).wf(),
            final(b).draft(final(self)@) == max_data_step(old(b).draft(old(self)@), level),
            final(b).budget() == old(b).budget(),
            final(b).pn_len() == old(b).pn_len(),
            final(b).ends_with_padding() ==> old(b).ends_with_padding(),
            final(b).frames().len() >= old(b).frames().len(),
            final(b).frames().len() == 0 ==> final(self)@ == old(self)@,
    {
        if level != Level::Application {
            return ;
        }
        if self.rx_data + 2504 <= self.max_rx_data {
            return ;
        }
        let sum: u64 = self.rx_data + self.local_transport_params.initial_max_data as u64;
        let max: u64 = if sum <= MAX_VARINT {
            sum
        } else {
            MAX_VARINT
        };
        let f = Frame::MaxData { max };
        if !b.fits(&f) {
            return ;
        }
        b.push(&f);
        self.max_rx_data = max;
    }

    /// Raises the limit of the `i`-th stream, where it is time.
    fn credit_one(&mut self, i: usize, b: &mut Builder)
        requires
            old(self).wf(),
            old(b).wf(),
            i < old(self)@.streams.len(),
        ensures
            final(self).wf(),
            final(b).wf(),
            final(b).draft(final(self)@) == credit_step(old(b).draft(old(self)@), i as int),
            final(b).budget() == old(b).budget(),
            final(b).pn_len() == old(b).pn_len(),
            final(b).ends_with_padding() ==> old(b).ends_with_padding(),
            final(b).frames().len() >= old(b).frames().len(),
            final(b).frames().len() == 0 ==> final(self)@ == old(self)@,
            final(self)@.streams.len() == old(self)@.streams.len(),
    {
        let ghost t = self@.streams;
        assert(t[i as int] == (self.streams@[i as int].0, self.streams@[i as int].1@));
        assert(t[i as int].1.wf());
        proof {
            lemma_stream_bounds(t[i as int].1);
            crate::conn::lemma_unique(t, i as int);
        }
        if !self.streams[i].1.more_credit() {
            return ;
        }
        let id: u64 = self.streams[i].0;
        let room: u64 = MAX_OFFSET - self.streams[i].1.max_rx_data();
        let window: u64 = self.local_transport_params.initial_max_stream_data_bidi_local as u64;
        let max: u64 = if window <= room {
            self.streams[i].1.max_rx_data() + window
        } else {
            MAX_OFFSET
        };
        let f = Frame::MaxStreamData { stream_id: id, max };
        if !b.fits(&f) {
            return ;
        }
        b.push(&f);
        let e = self.take_stream(i);
        let mut st = e.1;
        let _ = st.raise_credit();
        self.put_stream(i, id, st);
        assert(self@.streams =~= t.update(
            i as int,
            (id, StreamState { max_rx_data: t[i as int].1.raised_limit(), ..t[i as int].1 }),
        ));
    }

    /// Raises the limits of the streams, where it is time.
    fn step_credits(&mut self, level: Level, b: &mut Builder)
        requires
            old(self).wf(),
            old(b).wf(),
        ensures
            final(self).wf(),
            final(b).wf(),
            final(b).draft(final(self)@) == credit_steps(old(b).draft(old(self)@), level, 0),
            final(b).budget() == old(b).budget(),
            final(b).pn_len() == old(b).pn_len(),
            final(b).ends_with_padding() ==> old(b).ends_with_padding(),
            final(b).frames().len() >= old(b).frames().len(),
            final(b).frames().len() == 0 ==> final(self)@ == old(self)@,
    {
        if level != Level::Application {
            return ;
        }
        let n: usize = self.streams.len();
        let mut i: usize = 0;
        while i < n
            invariant
                self.wf(),
                b.wf(),
                0 <= i <= n,
                n == self@.streams.len(),
                level == Level::Application,
                b.budget() == old(b).budget(),
                b.pn_len() == old(b).pn_len(),
                b.ends_with_padding() ==> old(b).ends_with_padding(),
                b.frames().len() >= old(b).frames().len(),
                b.frames().len() == 0 ==> self@ == old(self)@,
                credit_steps(b.draft(self@), level, i as int) == credit_steps(
                    old(b).draft(old(self)@),
                    level,
                    0,
                ),
            decreases n - i,
        {
            self.credit_one(i, b);
            i += 1;
        }
    }

    /// The number of bytes that the `i`-th stream may send in the packet.
    fn room_for(&self, i: usize, b: &Builder) -> (r: u64)
        requires
            self.wf(),
            b.wf(),
            i < self@.streams.len(),
        ensures
            r == stream_room(b.draft(self@), i as int),
            r <= 0xffff,
    {
        assert(self@.streams[i as int] == (self.streams@[i as int].0, self.streams@[i as int].1@));
        assert(self@.streams[i as int].1.wf());
        proof {
            lemma_stream_bounds(self@.streams[i as int].1);
        }
        let a: u64 = self.max_tx_data - self.tx_data;
        let s = &self.streams[i].1;
        let c: u64 = s.max_tx_data() - s.tx_data();
        let r: u64 = if b.room() > MAX_STREAM_OVERHEAD {
            b.room() - MAX_STREAM_OVERHEAD
        } else {
            0
        };
        let ac: u64 = if a < c {
            a
        } else {
            c
        };
        if ac < r {
            ac
        } else {
            r
        }
    }

    /// The first stream that has bytes to send and may send some.
    fn find_sendable(&self, b: &Builder) -> (r: Option<usize>)
        requires
            self.wf(),
            b.wf(),
        ensures
            match r {
                Some(i) => first_sendable(b.draft(self@), 0) == Some(i as int) && i
                    < self@.streams.len() && stream_room(b.draft(self@), i as int) > 0,
                None => first_sendable(b.draft(self@), 0).is_none(),
            },
    {
        let mut i: usize = 0;
        while i < self.streams.len()
            invariant
                self.wf(),
                b.wf(),
                0 <= i <= self@.streams.len(),
                first_sendable(b.draft(self@), 0) == first_sendable(b.draft(self@), i as int),
            decreases self@.streams.len() - i,
        {
            assert(self@.streams[i as int]
                == (self.streams@[i as int].0, self.streams@[i as int].1@));
            if self.streams[i].1.can_write() && self.room_for(i, b) > 0 {
                return Some(i);
            }
            i += 1;
        }
        None
    }

    /// Puts bytes of a stream into the packet, where a stream has some to
    /// send and may send some.
    fn step_stream(&mut self, level: Level, b: &mut Builder)
        requires
            old(self).wf(),
            old(b).wf(),
        ensures
            final(self).wf(),
            final(b).wf(),
            final(b).draft(final(self)@) == stream_step(old(b).draft(old(self)@), level),
            final(b).budget() == old(b).budget(),
            final(b).pn_len() == old(b).pn_len(),
            final(b).ends_with_padding() ==> old(b).ends_with_padding(),
            final(b).frames().len() >= old(b).frames().len(),
            final(b).frames().len() == 0 ==> final(self)@ == old(self)@,
    {
        if level != Level::Application || !self.handshake_completed {
            return ;
        }
        let i = match self.find_sendable(b) {
            Some(i) => i,
            None => return ,
        };
        let room: u64 = self.room_for(i, b);
        let ghost t = self@.streams;
        assert(t[i as int] == (self.streams@[i as int].0, self.streams@[i as int].1@));
        assert(t[i as int].1.wf());
        proof {
            lemma_stream_bounds(t[i as int].1);
            crate::conn::lemma_unique(t, i as int);
        }
        let e = self.take_stream(i);
        let id: u64 = e.0;
        let mut st = e.1;
        let data = st.pop_send(room as usize);
        let n: u64 = data.len() as u64;
        st.add_tx(n);
        self.put_stream(i, id, st);
        self.tx_data = self.tx_data + n;
        assert(self@.streams =~= t.update(
            i as int,
            (
                id,
                StreamState {
                    send: t[i as int].1.behind_head(room as int),
                    tx_data: t[i as int].1.tx_data + n,
                    ..t[i as int].1
                },
            ),
        ));
        let f = Frame::Stream { stream_id: id, data };
        proof {
            crate::frame::lemma_stream_frame_len(id, data@);
            assert(data@ == t[i as int].1.head(room as int));
            assert(data@.data.len() <= room);
        }
        b.push(&f);
    }

    /// Pads frames that are too short for the sample of the header's
    /// mask.
    fn step_min_pad(&mut self, pn_len: usize, b: &mut Builder)
        requires
            old(self).wf(),
            old(b).wf(),
            1 <= pn_len <= 4,
            pn_len == old(b).pn_len(),
        ensures
            final(self).wf(),
            final(b).wf(),
            final(b).draft(final(self)@) == min_pad_step(old(b).draft(old(self)@), pn_len as int),
            final(b).budget() == old(b).budget(),
            final(b).pn_len() == old(b).pn_len(),
            final(b).frames().len() >= old(b).frames().len(),
            final(b).frames().len() == 0 ==> final(self)@ == old(self)@,
            final(b).frames().len() > 0 ==> pn_len + frames_bytes(final(b).frames()).len() >= 4,
    {
        let have: u64 = b.len();
        if !b.is_empty() && pn_len as u64 + have < 4 {
            let len: u64 = 4 - pn_len as u64 - have;
            let f = Frame::Padding { len: len as usize };
            assert(f@.bytes().len() == len);
            b.push(&f);
        }
    }
}


impl Conn {
    /// Whether one of the streams has bytes to send.
    fn any_writable(&self) -> (r: bool)
        ensures
            r == any_writable(self@.streams),
    {
        let mut i: usize = 0;
        while i < self.streams.len()
            invariant
                0 <= i <= self@.streams.len(),
                forall|j: int| 0 <= j < i ==> !(#[trigger] self@.streams[j]).1.can_write(),
            decreases self@.streams.len() - i,
        {
            assert(self@.streams[i as int]
                == (self.streams@[i as int].0, self.streams@[i as int].1@));
            if self.streams[i].1.can_write() {
                return true;
            }
            i += 1;
        }
        false
    }

    /// Whether the limit of one of the streams should be raised.
    fn any_more_credit(&self) -> (r: bool)
        requires
            self.wf(),
        ensures
            r == any_more_credit(self@.streams),
    {
        let mut i: usize = 0;
        while i < self.streams.len()
            invariant
                self.wf(),
                0 <= i <= self@.streams.len(),
                forall|j: int| 0 <= j < i ==> !(#[trigger] self@.streams[j]).1.more_credit(),
            decreases self@.streams.len() - i,
        {
            assert(self@.streams[i as int]
                == (self.streams@[i as int].0, self.streams@[i as int].1@));
            assert(self@.streams[i as int].1.wf());
            if self.streams[i].1.more_credit() {
                return true;
            }
            i += 1;
        }
        false
    }

    /// The stage whose space sends the next packet.
    fn choose_level(&self) -> (r: Option<Level>)
        requires
            self.wf(),
        ensures
            r == send_level(self@),
    {
        if self.initial.crypto_stream.can_write() || self.initial.do_ack {
            Some(Level::Initial)
        } else if self.handshake.crypto_stream.can_write() || self.handshake.do_ack {
            Some(Level::Handshake)
        } else if self.handshake_completed && (self.application.crypto_stream.can_write()
            || self.application.do_ack || self.any_writable() || self.any_more_credit()) {
            Some(Level::Application)
        } else {
            None
        }
    }

    /// The header of the next packet of the given stage, as it is written.
    fn head(&self, level: Level) -> (r: Result<Vec<u8>, Error>)
        requires
            self.wf(),
        ensures
            match head_bytes(self@, level) {
                Some(h) => r matches Ok(v) && v@ == h && h.len() >= 1 && h[0] % 16 == 0,
                None => r matches Err(e) && e == Error::InvalidPacket,
            },
    {
        let dcid = crate::octets::copy_range(self.dcid.as_slice(), 0, self.dcid.len());
        let scid = crate::octets::copy_range(self.scid.as_slice(), 0, self.scid.len());
        assert(dcid@ =~= self.dcid@);
        assert(scid@ =~= self.scid@);
        let hdr = crate::packet::Header {
            ty: self.space_ref(level).pkt_type,
            version: self.version,
            flags: 0,
            dcid,
            scid,
            token: None,
        };
        if level == Level::Application {
            Ok(hdr.short_to_vec())
        } else {
            hdr.long_to_vec()
        }
    }

    /// The frames of a packet of the given stage, with room for `left`
    /// bytes.
    fn draft(&mut self, level: Level, pn_len: usize, left: u64) -> (b: Builder)
        requires
            old(self).wf(),
            1 <= pn_len <= 4,
            3 <= left <= 0xffff,
        ensures
            final(self).wf(),
            b.wf(),
            b.budget() == left,
            b.draft(final(self)@) == drafted(old(self)@, level, pn_len as int, left as int),
            b.frames().len() == 0 ==> final(self)@ == old(self)@,
            b.frames().len() > 0 ==> pn_len + frames_bytes(b.frames()).len() >= 4,
            separable(b.frames()),
    {
        proof {
            reveal(drafted);
        }
        let mut b = Builder::new(left, pn_len);
        self.step_ack(level, &mut b);
        self.step_crypto(level, &mut b);
        self.step_padding(pn_len, &mut b);
        self.step_max_data(level, &mut b);
        self.step_credits(level, &mut b);
        self.step_stream(level, &mut b);
        self.step_min_pad(pn_len, &mut b);
        let _ = b.len();
        b
    }

    /// Counts one packet as sent in the space of the given stage.
    fn next_pkt_num(&mut self, level: Level)
        requires
            old(self).wf(),
            old(self)@.space(level).last_pkt_num < MAX_PKT_NUM,
        ensures
            final(self).wf(),
            final(self)@ == old(self)@.with_space(
                level,
                SpaceView {
                    last_pkt_num: (old(self)@.space(level).last_pkt_num + 1) as u64,
                    ..old(self)@.space(level)
                },
            ),
    {
        match level {
            Level::Initial => self.initial.next_pkt_num(),
            Level::Handshake => self.handshake.next_pkt_num(),
            Level::Application => self.application.next_pkt_num(),
        }
    }

    /// Settles what is settled of the next packet before its frames are
    /// chosen.
    fn plan(&self, cap: usize) -> (r: Result<
        (Level, Vec<u8>, crate::crypto::Keys, u64, usize, u64),
        Error,
    >)
        requires
            self.wf(),
        ensures
            match planned(self@, cap as int) {
                Err(e) => r matches Err(e2) && e2 == e,
                Ok(p) => {
                    &&& r matches Ok(v) && v.0 == p.level && v.1@ == p.head && v.2@ == p.keys
                        && v.3 == p.pn && v.4 == p.pn_len && v.5 == p.left && v.2.wf()
                    &&& p.head.len() >= 1
                    &&& p.head[0] % 16 == 0
                    &&& p.pn_len == 1 || p.pn_len == 2 || p.pn_len == 4
                    &&& 3 <= p.left <= 0xffff
                    &&& p.pn < MAX_PKT_NUM
                    &&& p.pn == self@.space(p.level).last_pkt_num
                    &&& p.head.len() + 4 + p.pn_len + 16 + p.left <= cap
                    &&& p.head.len() + 4 + p.pn_len + 16 + p.left <= 0xffff
                },
            },
    {
        proof {
            reveal(planned);
        }
        let limit: usize = self.peer_transport_params.max_packet_size as usize;
        let avail: usize = if limit < cap {
            limit
        } else {
            cap
        };
        let level = match self.choose_level() {
            Some(l) => l,
            None => return Err(Error::NothingToDo),
        };
        let head = self.head(level)?;
        proof {
            lemma_space_bounds(self@.space(level));
        }
        let space = self.space_ref(level);
        let pn: u64 = space.last_pkt_num;
        if pn >= MAX_PKT_NUM {
            return Err(Error::InvalidPacket);
        }
        let keys = match &space.crypto_seal {
            Some(k) => k.duplicate(),
            None => return Err(Error::InvalidState),
        };
        let pn_len: usize = crate::packet::pkt_num_len(pn, space.largest_rx_pkt_num);
        if head.len() > 0xffff || (avail as u64) < head.len() as u64 + pn_len as u64 + 23 {
            return Err(Error::BufferTooShort);
        }
        let left: u64 = avail as u64 - head.len() as u64 - pn_len as u64 - 20;
        Ok((level, head, keys, pn, pn_len, left))
    }

    /// Makes the next packet for a buffer of `cap` bytes.
    fn make_packet(&mut self, cap: usize) -> (r: Result<Option<Vec<u8>>, Error>)
        requires
            old(self).wf(),
        ensures
            final(self).wf(),
            match packet_out(old(self)@, cap as int) {
                Err(e) => r matches Err(e2) && e2 == e && final(self)@ == old(self)@,
                Ok((c, None)) => r matches Ok(None) && final(self)@ == c,
                Ok((c, Some(p))) => r matches Ok(Some(v)) && v@ == p && final(self)@ == c && 0
                    < p.len() <= cap && peer_can_open(old(self)@, cap as int, p),
            },
    {
        proof {
            reveal(packet_out);
        }
        let (level, head, keys, pn, pn_len, left) = self.plan(cap)?;
        let b = self.draft(level, pn_len, left);
        if b.is_empty() {
            return Err(Error::NothingToDo);
        }
        proof {
            lemma_same_number(old(self)@, level, pn_len as int, left as int);
        }
        self.next_pkt_num(level);
        proof {
            crate::roundtrip::lemma_frames_roundtrip(b.frames());
        }
        Ok(seal(&keys, head.as_slice(), level != Level::Application, pn, pn_len, &b))
    }

    /// Writes the next packet to the front of `out` and returns its length.
    /// `outcome` is what the handshake reported when it was last asked; it
    /// is taken note of first.
    pub fn send(&mut self, out: &mut [u8], outcome: &Outcome) -> (r: Result<usize, Error>)
        requires
            old(self).wf(),
        ensures
            final(self).wf(),
            (final(self)@, final(out)@, r) == sent(old(self)@, old(out)@, outcome@),
            r matches Ok(n) ==> 0 < n <= old(out)@.len() && peer_can_open(
                pumped(old(self)@, outcome@).0,
                old(out)@.len() as int,
                final(out)@.take(n as int),
            ),
    {
        if out.len() == 0 {
            return Err(Error::BufferTooShort);
        }
        if self.draining {
            return Err(Error::NothingToDo);
        }
        match self.do_handshake(outcome) {
            Ok(_) => {},
            Err(e) => return Err(e),
        }
        let p = match self.make_packet(out.len()) {
            Ok(Some(p)) => p,
            Ok(None) => return Err(Error::CryptoFail),
            Err(e) => return Err(e),
        };
        let n: usize = p.len();
        let mut i: usize = 0;
        while i < n
            invariant
                0 <= i <= n,
                n == p@.len(),
                out@.len() == old(out)@.len(),
                n <= out@.len(),
                out@ == p@.take(i as int) + old(out)@.skip(i as int),
            decreases n - i,
        {
            out[i] = p[i];
            i += 1;
            assert(out@ =~= p@.take(i as int) + old(out)@.skip(i as int));
        }
        assert(p@.take(n as int) =~= p@);
        assert(out@.take(n as int) =~= p@);
        Ok(n)
    }
}

/// Protects the packet that holds the frames of `b`.
fn seal(keys: &crate::crypto::Keys, head: &[u8], long: bool, pn: u64, pn_len: usize,
    b: &Builder) -> (r:
    Option<Vec<u8>>)
    requires
        keys.wf(),
        b.wf(),
        head@.len() >= 1,
        head@[0] % 16 == 0,
        pn_len == 1 || pn_len == 2 || pn_len == 4,
        b.frames().len() > 0,
        pn_len + frames_bytes(b.frames()).len() >= 4,
    ensures
        match sealed_packet(keys@, head@, long, pn, pn_len as int, frames_bytes(b.frames())) {
            Some(p) => r matches Some(v) && v@ == p && 0 < p.len() <= head@.len() + 4 + pn_len + 16
                + b.budget() && crate::packet::opens_to(
                keys@,
                p,
                long,
                pn,
                pn_len as int,
                frames_bytes(b.frames()),
            ) && crate::packet::framed(
                p,
                head@,
                long,
                pn_len as int,
                frames_bytes(b.frames()).len() as int,
            ),
            None => r.is_none(),
        },
{
    let total: u64 = b.len();
    match crate::packet::seal_packet(keys, head, long, pn, pn_len, b.payload.as_slice()) {
        Ok(p) => {
            proof {
                let n = (pn_len + total + 16) as u64;
                assert(varint_bytes(n).len() <= 4);
            }
            Some(p)
        },
        Err(_) => None,
    }
}

/// Drafting a packet leaves the next packet number of its space as it is.
pub proof fn lemma_same_number(c: ConnView, level: Level, pn_len: int, left: int)
    ensures
        drafted(c, level, pn_len, left).conn.space(level).last_pkt_num == c.space(
            level,
        ).last_pkt_num,
{
    reveal(drafted);
    let d0 = Draft { conn: c, frames: Seq::empty(), left };
    let d1 = ack_step(d0, level);
    let d2 = crypto_step(d1, level);
    let d3 = padding_step(d2, pn_len);
    let d4 = max_data_step(d3, level);
    lemma_credits_keep_spaces(d4, level, 0);
}

/// Raising the limits of streams leaves the spaces as they are.
pub proof fn lemma_credits_keep_spaces(d: Draft, level: Level, i: int)
    ensures
        credit_steps(d, level, i).conn.initial == d.conn.initial,
        credit_steps(d, level, i).conn.handshake == d.conn.handshake,
        credit_steps(d, level, i).conn.application == d.conn.application,
    decreases d.conn.streams.len() - i,
{
    if !(level != Level::Application || i < 0 || i >= d.conn.streams.len()) {
        lemma_credits_keep_spaces(credit_step(d, i), level, i + 1);
    }
}


/// A stream of which more than half of the window was read gets its limit
/// raised by exactly the window that this side announced for its streams,
/// where the frame that says so fits and the new limit is an offset; and
/// then no further raise is due.
pub proof fn lemma_credit_raised(d: Draft, i: int)
    requires
        d.conn.wf(),
        0 <= i < d.conn.streams.len(),
        d.conn.streams[i].1.more_credit(),
        d.left >= 17,
        d.conn.streams[i].1.max_rx_data + d.conn.stream_window() <= MAX_OFFSET,
    ensures
        ({
            let s = d.conn.streams[i].1;
            let after = credit_step(d, i);
            let limit = s.max_rx_data
                + d.conn.local_transport_params.initial_max_stream_data_bidi_local;
            &&& after.frames == d.frames.push(
                FrameView::MaxStreamData { stream_id: d.conn.streams[i].0, max: limit as u64 },
            )
            &&& after.conn.streams[i].1.max_rx_data == limit
            &&& !after.conn.streams[i].1.more_credit()
        }),
{
    let s = d.conn.streams[i].1;
    assert(s.wf());
    lemma_stream_bounds(s);
    let f = FrameView::MaxStreamData { stream_id: d.conn.streams[i].0,
        max: s.raised_limit() as u64 };
    assert(f.bytes().len() <= 17);
}

} // verus!
