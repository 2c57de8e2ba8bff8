//! The way in: how a connection takes in a datagram.

use vstd::prelude::*;
use crate::Error;
use crate::conn::{find, lemma_unique, pumped, Conn, ConnView};
use crate::crypto::{derive_initial_key_material, initial_keys, Keys, KeysView, Level};
use crate::frame::{frame_views, frames_at, parse_frames, Frame, FrameView};
use crate::octets::{copy_range, varint_at, Bytes, MAX_VARINT};
use crate::packet::{
    long_header, open_packet, opened_packet, short_header, Header, HeaderView, SpaceView, Type,
    MAX_PKT_NUM,
};
use crate::stream::{Chunk, RangeBuf, StreamState, MAX_OFFSET};
use crate::tls::{Outcome, OutcomeView};

verus! {

/// The stage whose space takes packets of kind `ty`.
pub open spec fn level_of(ty: Type) -> Option<Level> {
    match ty {
        Type::Initial => Some(Level::Initial),
        Type::Handshake => Some(Level::Handshake),
        Type::Application => Some(Level::Application),
        _ => None,
    }
}

/// The limit up to which the peer may send on the stream `id`: that of
/// the stream, or that of a new stream where the stream is not there.
pub open spec fn stream_limit(c: ConnView, id: u64) -> int {
    match find(c.streams, id) {
        Some(i) => c.streams[i].1.max_rx_data,
        None => c.fresh_stream().max_rx_data,
    }
}

/// Why the frame `f` cannot be taken in, if it cannot: a limit for a
/// stream that is neither in the table nor among `created`, the streams that
/// earlier frames of the packet bring, or bytes of a stream above the limit
/// that the peer was given for it.
pub open spec fn frame_error(c: ConnView, created: Seq<u64>, f: FrameView) -> Option<Error> {
    match f {
        FrameView::MaxStreamData { stream_id, max } => if find(c.streams, stream_id).is_some()
            || created.contains(stream_id) {
            None
        } else {
            Some(Error::UnknownStream)
        },
        FrameView::Stream { stream_id, data } => if data.end() > stream_limit(c, stream_id) {
            Some(Error::FlowControl)
        } else {
            None
        },
        _ => None,
    }
}

/// The streams that are there once `f` was taken in, besides those of the
/// table.
pub open spec fn created_after(created: Seq<u64>, f: FrameView) -> Seq<u64> {
    match f {
        FrameView::Stream { stream_id, data } => created.push(stream_id),
        _ => created,
    }
}

/// Why the frames `fs`, from the `i`-th on, cannot be taken in, if they
/// cannot: the error of the first frame that has one.
pub open spec fn frames_error(c: ConnView, created: Seq<u64>, fs: Seq<FrameView>, i: int) -> Option<
    Error,
>
    decreases fs.len() - i,
{
    if i < 0 || i >= fs.len() {
        None
    } else {
        match frame_error(c, created, fs[i]) {
            Some(e) => Some(e),
            None => frames_error(c, created_after(created, fs[i]), fs, i + 1),
        }
    }
}

/// Frames that hold bytes of a stream above the stream's limit cannot be
/// taken in: where the `k`-th frame holds such bytes, the frames from the
/// `i`-th on have an error.
pub proof fn lemma_above_limit_refused(
    c: ConnView,
    created: Seq<u64>,
    fs: Seq<FrameView>,
    i: int,
    k: int,
)
    requires
        0 <= i <= k < fs.len(),
        fs[k] matches FrameView::Stream { stream_id, data } && data.end() > stream_limit(
            c,
            stream_id,
        ),
    ensures
        frames_error(c, created, fs, i).is_some(),
    decreases k - i,
{
    if i < k && frame_error(c, created, fs[i]).is_none() {
        lemma_above_limit_refused(c, created_after(created, fs[i]), fs, i + 1, k);
    }
}

/// A datagram whose packet holds bytes of a stream above the stream's
/// limit is refused, and leaves the connection as it was when the
/// handshake's report was taken note of: no stream has changed.
pub proof fn lemma_flow_control(c: ConnView, buf: Seq<u8>, o: OutcomeView, fs: Seq<FrameView>,
    k: int)
    requires
        buf.len() > 0,
        pumped(c, o).1.is_ok(),
        bounds(pumped(c, o).0, buf) matches Ok(b) && selected(pumped(c, o).0, b.hdr) matches Ok(
            sel,
        ) && opened_packet(
            sel.2,
            buf,
            b.pn_off,
            b.payload_len,
            pumped(c, o).0.space(sel.1).largest_rx_pkt_num,
            b.long,
        ) matches Ok(opened) && frames_at(opened.2, 0) == Ok::<Seq<FrameView>, Error>(fs),
        0 <= k < fs.len(),
        fs[k] matches FrameView::Stream { stream_id, data } && data.end() > stream_limit(
            pumped(c, o).0,
            stream_id,
        ),
    ensures
        recv_spec(c, buf, o).1.is_err(),
        recv_spec(c, buf, o).0 == pumped(c, o).0,
        recv_spec(c, buf, o).0.streams == c.streams,
{
    reveal(arrival);
    lemma_above_limit_refused(pumped(c, o).0, Seq::empty(), fs, 0, k);
}

/// The stream `s` after the chunk `c` arrived: unchanged where the chunk
/// ends above the limit.
pub open spec fn stream_received(s: StreamState, c: Chunk) -> StreamState {
    if c.end() <= s.max_rx_data {
        s.received(c)
    } else {
        s
    }
}

/// The stream `s` after the peer allowed `max` bytes to be sent on it.
pub open spec fn stream_allowed(s: StreamState, max: u64) -> StreamState {
    StreamState {
        max_tx_data: if crate::stream::clamp(max) > s.max_tx_data {
            crate::stream::clamp(max)
        } else {
            s.max_tx_data
        },
        ..s
    }
}

/// The connection after the peer allowed `max` bytes to be sent on the
/// stream `stream_id`: unchanged where the stream is not there.
pub open spec fn stream_data_allowed(c: ConnView, stream_id: u64, max: u64) -> ConnView {
    match find(c.streams, stream_id) {
        Some(i) => ConnView {
            streams: c.streams.update(i, (stream_id, stream_allowed(c.streams[i].1, max))),
            ..c
        },
        None => c,
    }
}

/// The connection after handshake data arrived in a packet of the given
/// stage: the data goes into the stage's stream of handshake data.
pub open spec fn crypto_arrived(c: ConnView, level: Level, data: Chunk) -> ConnView {
    let sp = c.space(level);
    c.with_space(level, SpaceView { crypto_stream: stream_received(sp.crypto_stream, data), ..sp })
}

/// The connection after bytes of the stream `stream_id` arrived: they go
/// into the stream, which comes to be if it is not there.
pub open spec fn stream_arrived(c: ConnView, stream_id: u64, data: Chunk) -> ConnView {
    if stream_id > MAX_VARINT {
        c
    } else {
        let t = c.with_stream(stream_id);
        let i = find(t, stream_id).unwrap();
        ConnView { streams: t.update(i, (stream_id, stream_received(t[i].1, data))), ..c }
    }
}

/// The connection after the peer allowed `max` bytes to be sent in all: a
/// limit never goes down.
pub open spec fn data_allowed(c: ConnView, max: u64) -> ConnView {
    ConnView {
        max_tx_data: if max > c.max_tx_data && max <= MAX_OFFSET {
            max
        } else {
            c.max_tx_data
        },
        ..c
    }
}

/// The connection after the frame `f` arrived in a packet of the given
/// stage. A frame that closes the connection starts the draining. A limit
/// that the peer raises is taken over. Handshake data and bytes of streams
/// go into their streams. The other frames change nothing.
pub open spec fn frame_applied(c: ConnView, level: Level, f: FrameView) -> ConnView {
    match f {
        FrameView::ConnectionClose { error_code, frame_type, reason } => ConnView {
            draining: true,
            ..c
        },
        FrameView::ApplicationClose { error_code, reason } => ConnView { draining: true, ..c },
        FrameView::MaxData { max } => data_allowed(c, max),
        FrameView::MaxStreamData { stream_id, max } => stream_data_allowed(c, stream_id, max),
        FrameView::Crypto { data } => crypto_arrived(c, level, data),
        FrameView::Stream { stream_id, data } => stream_arrived(c, stream_id, data),
        _ => c,
    }
}

/// The connection after the frames `fs`, from the `i`-th on, arrived one
/// after the other.
pub open spec fn frames_applied(c: ConnView, level: Level, fs: Seq<FrameView>, i: int) -> ConnView
    decreases fs.len() - i,
{
    if i < 0 || i >= fs.len() {
        c
    } else {
        frames_applied(frame_applied(c, level, fs[i]), level, fs, i + 1)
    }
}

/// Whether one of the frames `fs`, from the `i`-th on, asks for an
/// acknowledgement.
pub open spec fn any_ack_eliciting(fs: Seq<FrameView>, i: int) -> bool
    decreases fs.len() - i,
{
    if i < 0 || i >= fs.len() {
        false
    } else {
        fs[i].ack_eliciting() || any_ack_eliciting(fs, i + 1)
    }
}

/// A packet that arrived and was opened.
pub struct Arrival {
    /// The packet's header.
    pub hdr: HeaderView,
    /// The stage whose space the packet belongs to.
    pub level: Level,
    /// The keys of the first packets, where the packet made them known.
    pub derived: Option<(KeysView, KeysView)>,
    /// The packet's number.
    pub pn: u64,
    /// The packet's frames.
    pub frames: Seq<FrameView>,
    /// The number of bytes that the packet takes in the datagram.
    pub len: int,
}

/// Where a packet lies in a datagram.
pub struct Bounds {
    /// The packet's header.
    pub hdr: HeaderView,
    /// Whether the header has the long form.
    pub long: bool,
    /// The offset at which the packet number starts.
    pub pn_off: int,
    /// The number of bytes that the packet number and the protected
    /// payload take.
    pub payload_len: int,
}

/// The bounds of the packet at the start of the datagram `buf`. The header
/// is read, in its long form where the first byte's high bit is set. A long
/// header must name the connection's version. The payload's length stands
/// behind a long header; a short header's payload is the rest of the
/// datagram.
#[verifier::opaque]
pub open spec fn bounds(c: ConnView, buf: Seq<u8>) -> Result<Bounds, Error> {
    let long = buf[0] >= 0x80;
    let header = if long {
        long_header(buf)
    } else {
        short_header(buf, c.scid.len() as int)
    };
    match header {
        Err(e) => Err(e),
        Ok((hdr, off)) => if long && hdr.version != c.version {
            Err(Error::UnknownVersion)
        } else {
            let length = if hdr.ty == Type::Application {
                Some(((buf.len() - off) as u64, off))
            } else {
                varint_at(buf, off)
            };
            match length {
                None => Err(Error::BufferTooShort),
                Some((payload_len, pn_off)) => if buf.len() - pn_off < payload_len {
                    Err(Error::BufferTooShort)
                } else {
                    Ok(Bounds { hdr, long, pn_off, payload_len: payload_len as int })
                },
            }
        },
    }
}

/// The keys for a packet with the header `hdr`: those of the first
/// packets, where the packet makes them known; the stage of the packet's
/// space; and the keys that open the packet. A side that has no keys yet
/// derives those of the first packets from the packet's destination
/// connection ID.
#[verifier::opaque]
pub open spec fn selected(c: ConnView, hdr: HeaderView) -> Result<
    (Option<(KeysView, KeysView)>, Level, KeysView),
    Error,
> {
    if !c.derived_initial_secrets && initial_keys(hdr.dcid, c.is_server).is_none() {
        Err(Error::CryptoFail)
    } else {
        let derived = if c.derived_initial_secrets {
            None
        } else {
            initial_keys(hdr.dcid, c.is_server)
        };
        match level_of(hdr.ty) {
            None => Err(Error::InvalidPacket),
            Some(level) => match open_keys(c, derived, level) {
                None => Err(Error::InvalidState),
                Some(k) => Ok((derived, level, k)),
            },
        }
    }
}

/// The keys that open a packet of the given stage: for the first packets
/// those that were just derived, if any were; else those of the space.
pub open spec fn open_keys(c: ConnView, derived: Option<(KeysView, KeysView)>, level: Level)
    -> Option<KeysView> {
    match derived {
        Some(d) => if level == Level::Initial {
            Some(d.0)
        } else {
            c.space(level).crypto_open
        },
        None => c.space(level).crypto_open,
    }
}

/// The packet at the start of the datagram `buf`, opened with the keys of
/// the connection `c`, or why there is none. The packet's bounds are found
/// and its keys selected; the keys take the protection off; then the frames
/// are read, and each must be one that can be taken in.
#[verifier::opaque]
pub open spec fn arrival(c: ConnView, buf: Seq<u8>) -> Result<Arrival, Error> {
    match bounds(c, buf) {
        Err(e) => Err(e),
        Ok(b) => match selected(c, b.hdr) {
            Err(e) => Err(e),
            Ok((derived, level, k)) => match opened_packet(
                k,
                buf,
                b.pn_off,
                b.payload_len,
                c.space(level).largest_rx_pkt_num,
                b.long,
            ) {
                Err(e) => Err(e),
                Ok((pn, pn_len, plain)) => match frames_at(plain, 0) {
                    Err(e) => Err(e),
                    Ok(frames) => match frames_error(c, Seq::empty(), frames, 0) {
                        Some(e) => Err(e),
                        None => Ok(
                            Arrival {
                                hdr: b.hdr,
                                level,
                                derived,
                                pn,
                                frames,
                                len: b.pn_off + b.payload_len,
                            },
                        ),
                    },
                },
            },
        },
    }
}

/// The connection after it learned from a packet's header what it did
/// not know. A client takes the source connection ID of the first packet
/// that it gets as its destination. A side without keys takes the keys that
/// the packet made known, and the packet's source connection ID as well.
pub open spec fn introduced(c: ConnView, a: Arrival) -> ConnView {
    met(c, a.hdr.scid, a.derived)
}

/// The connection after it met a peer with the source connection ID
/// `scid`, whose packet made the keys `derived` known, if any.
pub open spec fn met(c: ConnView, scid: Seq<u8>, derived: Option<(KeysView, KeysView)>)
    -> ConnView {
    let c1 = if !c.is_server && !c.got_peer_conn_id {
        ConnView { dcid: scid, got_peer_conn_id: true, ..c }
    } else {
        c
    };
    match derived {
        Some((open, seal)) => ConnView {
            initial: SpaceView { crypto_open: Some(open), crypto_seal: Some(seal), ..c1.initial },
            derived_initial_secrets: true,
            dcid: c1.dcid + scid,
            got_peer_conn_id: true,
            ..c1
        },
        None => c1,
    }
}

/// The connection after the packet `a` arrived.
pub open spec fn arrived(c: ConnView, a: Arrival) -> ConnView {
    let c2 = frames_applied(introduced(c, a), a.level, a.frames, 0);
    c2.with_space(
        a.level,
        c2.space(a.level).received(a.pn, any_ack_eliciting(a.frames, 0)),
    )
}

/// The connection after the datagram `buf` arrived, and what the caller
/// is told: the number of bytes that the packet at the start of the datagram
/// took. Before the packet is looked at, the handshake's report `o` is taken
/// note of. A packet that cannot be taken in changes nothing.
pub open spec fn recv_spec(c: ConnView, buf: Seq<u8>, o: OutcomeView) -> (
    ConnView,
    Result<usize, Error>,
) {
    if buf.len() == 0 {
        (c, Err(Error::BufferTooShort))
    } else {
        let (c1, r) = pumped(c, o);
        match r {
            Err(e) => (c1, Err(e)),
            Ok(_) => match arrival(c1, buf) {
                Err(e) => (c1, Err(e)),
                Ok(a) => (arrived(c1, a), Ok(a.len as usize)),
            },
        }
    }
}

/// A packet that arrived and was opened.
pub struct Opened {
    hdr: Header,
    level: Level,
    derived: Option<(Keys, Keys)>,
    pn: u64,
    frames: Vec<Frame>,
    len: usize,
}

impl View for Opened {
    type V = Arrival;

    closed spec fn view(&self) -> Arrival {
        Arrival {
            hdr: self.hdr@,
            level: self.level,
            derived: match self.derived {
                Some((o, s)) => Some((o@, s@)),
                None => None,
            },
            pn: self.pn,
            frames: frame_views(self.frames@),
            len: self.len as int,
        }
    }
}

impl Conn {
    /// Takes note that the peer allows `max` bytes to be sent in all.
    fn apply_max_data(&mut self, max: u64)
        requires
            old(self).wf(),
        ensures
            final(self).wf(),
            final(self)@ == data_allowed(old(self)@, max),
    {
        if max > self.max_tx_data && max <= MAX_OFFSET {
            self.max_tx_data = max;
        }
    }

    /// Takes note that the peer allows `max` bytes on the stream
    /// `stream_id`.
    fn apply_max_stream_data(&mut self, stream_id: u64, max: u64)
        requires
            old(self).wf(),
        ensures
            final(self).wf(),
            final(self)@ == stream_data_allowed(old(self)@, stream_id, max),
    {
        match self.find_stream(stream_id) {
            Some(i) => {
                let ghost t = self@.streams;
                proof {
                    lemma_unique(t, i as int);
                }
                let e = self.take_stream(i);
                let mut st = e.1;
                st.raise_max_tx(max);
                self.put_stream(i, stream_id, st);
                assert(self@.streams =~= t.update(
                    i as int,
                    (stream_id, stream_allowed(t[i as int].1, max)),
                ));
            },
            None => {},
        }
    }

    /// Takes in handshake data that arrived in a packet of the given
    /// stage.
    #[verifier::rlimit(60)]
    fn apply_crypto(&mut self, level: Level, data: RangeBuf)
        requires
            old(self).wf(),
        ensures
            final(self).wf(),
            final(self)@ == crypto_arrived(old(self)@, level, data@),
    {
        match level {
            Level::Initial => {
                self.initial.push_crypto(data);
            },
            Level::Handshake => {
                self.handshake.push_crypto(data);
            },
            Level::Application => {
                self.application.push_crypto(data);
            },
        }
    }

    /// Takes in bytes of the stream `stream_id`.
    fn apply_stream(&mut self, stream_id: u64, data: RangeBuf)
        requires
            old(self).wf(),
        ensures
            final(self).wf(),
            final(self)@ == stream_arrived(old(self)@, stream_id, data@),
    {
        if stream_id <= MAX_VARINT {
            let i = self.find_or_create(stream_id);
            let ghost t = self@.streams;
            proof {
                lemma_unique(t, i as int);
            }
            let e = self.take_stream(i);
            let mut st = e.1;
            let _ = st.push_recv(data);
            self.put_stream(i, stream_id, st);
            assert(self@.streams =~= t.update(
                i as int,
                (stream_id, stream_received(t[i as int].1, data@)),
            ));
        }
    }

    /// Takes in a frame that arrived in a packet of the given stage.
    #[verifier::rlimit(60)]
    fn apply_frame(&mut self, level: Level, f: Frame)
        requires
            old(self).wf(),
        ensures
            final(self).wf(),
            final(self)@ == frame_applied(old(self)@, level, f@),
    {
        match f {
            Frame::ConnectionClose { .. } => {
                self.draining = true;
            },
            Frame::ApplicationClose { .. } => {
                self.draining = true;
            },
            Frame::MaxData { max } => {
                self.apply_max_data(max);
            },
            Frame::MaxStreamData { stream_id, max } => {
                self.apply_max_stream_data(stream_id, max);
            },
            Frame::Crypto { data } => {
                self.apply_crypto(level, data);
            },
            Frame::Stream { stream_id, data } => {
                self.apply_stream(stream_id, data);
            },
            _ => {},
        }
    }

    /// Says whether the frames can be taken in, one after the other.
    fn check_frames(&self, frames: &Vec<Frame>) -> (r: Result<(), Error>)
        requires
            self.wf(),
        ensures
            match frames_error(self@, Seq::empty(), frame_views(frames@), 0) {
                None => r == Ok::<(), Error>(()),
                Some(e) => r == Err::<(), Error>(e),
            },
    {
        let mut created: Vec<u64> = Vec::new();
        let mut i: usize = 0;
        let ghost fs = frame_views(frames@);
        while i < frames.len()
            invariant
                self.wf(),
                0 <= i <= frames@.len(),
                fs == frame_views(frames@),
                frames_error(self@, Seq::empty(), fs, 0) == frames_error(
                    self@,
                    created@,
                    fs,
                    i as int,
                ),
            decreases frames@.len() - i,
        {
            assert(fs[i as int] == frames@[i as int]@);
            match &frames[i] {
                Frame::MaxStreamData { stream_id, max } => {
                    if self.find_stream(*stream_id).is_none()
                        && !contains_id(&created, *stream_id) {
                        return Err(Error::UnknownStream);
                    }
                },
                Frame::Stream { stream_id, data } => {
                    let limit: u64 = match self.find_stream(*stream_id) {
                        Some(k) => {
                            assert(self@.streams[k as int].1 == self.streams@[k as int].1@);
                            self.streams[k].1.max_rx_data()
                        },
                        None => self.local_transport_params.initial_max_stream_data_bidi_local as
                            u64,
                    };
                    if data.off > limit || data.data.len() as u64 > limit - data.off {
                        return Err(Error::FlowControl);
                    }
                    created.push(*stream_id);
                },
                _ => {},
            }
            i += 1;
        }
        Ok(())
    }

    /// Finds the bounds of the packet at the start of the datagram `buf`:
    /// its header, the offset of its packet number, and the length of what
    /// follows from there.
    fn read_bounds(&self, buf: &[u8]) -> (r: Result<(Header, usize, usize), Error>)
        requires
            buf@.len() > 0,
        ensures
            match bounds(self@, buf@) {
                Ok(b) => r matches Ok(v) && v.0@ == b.hdr && v.1 == b.pn_off && v.2 == b.payload_len
                    && b.long == (buf@[0] >= 0x80) && 1 <= b.pn_off && b.pn_off + b.payload_len
                    <= buf@.len() && v.0.scid@.len() <= 18,
                Err(e) => r matches Err(e2) && e2 == e,
            },
    {
        proof {
            reveal(bounds);
        }
        let mut b = Bytes::from_slice(buf);
        let long: bool = buf[0] >= 0x80;
        let hdr = if long {
            let h = Header::long_from_bytes(&mut b)?;
            if h.version != self.version {
                return Err(Error::UnknownVersion);
            }
            h
        } else {
            Header::short_from_bytes(&mut b, self.scid.len())?
        };
        let payload_len: u64 = if hdr.ty == Type::Application {
            b.cap() as u64
        } else {
            b.get_varint()?
        };
        if (b.cap() as u64) < payload_len {
            return Err(Error::BufferTooShort);
        }
        let pn_off: usize = b.off();
        Ok((hdr, pn_off, payload_len as usize))
    }

    /// Selects the keys for a packet with the header `hdr`: derives those
    /// of the first packets where this side has none, and finds the stage of
    /// the packet's space.
    fn select_keys(&self, hdr: &Header) -> (r: Result<(Option<(Keys, Keys)>, Level), Error>)
        requires
            self.wf(),
        ensures
            match selected(self@, hdr@) {
                Ok((derived, level, k)) => r matches Ok(v) && v.1 == level
                    && derived == (match v.0 {
                    Some((o, s)) => Some((o@, s@)),
                    None => None,
                }) && (v.0 matches Some(d) ==> d.0.wf() && d.1.wf()),
                Err(e) => r matches Err(e2) && e2 == e,
            },
    {
        proof {
            reveal(selected);
        }
        let derived: Option<(Keys, Keys)> = if self.derived_initial_secrets {
            None
        } else {
            Some(derive_initial_key_material(hdr.dcid.as_slice(), self.is_server)?)
        };
        let level = match hdr.ty {
            Type::Initial => Level::Initial,
            Type::Handshake => Level::Handshake,
            Type::Application => Level::Application,
            _ => return Err(Error::InvalidPacket),
        };
        let from_space: bool = derived.is_none() || level != Level::Initial;
        if from_space && self.space_ref(level).crypto_open.is_none() {
            return Err(Error::InvalidState);
        }
        Ok((derived, level))
    }

    /// Takes the protection off a packet with the keys selected for it.
    fn open_with(
        &self,
        derived: &Option<(Keys, Keys)>,
        level: Level,
        buf: &[u8],
        pn_off: usize,
        payload_len: usize,
        long: bool,
    ) -> (r: Result<(u64, usize, Vec<u8>), Error>)
        requires
            self.wf(),
            1 <= pn_off <= buf@.len(),
            derived matches Some(d) ==> d.0.wf() && d.1.wf(),
            open_keys(
                self@,
                match derived {
                    Some((o, s)) => Some((o@, s@)),
                    None => None,
                },
                level,
            ).is_some(),
        ensures
            match opened_packet(
                open_keys(
                    self@,
                    match derived {
                        Some((o, s)) => Some((o@, s@)),
                        None => None,
                    },
                    level,
                ).unwrap(),
                buf@,
                pn_off as int,
                payload_len as int,
                self@.space(level).largest_rx_pkt_num,
                long,
            ) {
                Ok((pn, pn_len, p)) => r matches Ok(v) && v.0 == pn && v.1 == pn_len && v.2@ == p
                    && pn <= MAX_PKT_NUM,
                Err(e) => r matches Err(e2) && e2 == e,
            },
    {
        let space = self.space_ref(level);
        let largest: u64 = space.largest_rx_pkt_num;
        proof {
            crate::packet::lemma_space_bounds(self@.space(level));
        }
        match derived {
            Some(d) => if level == Level::Initial {
                return open_packet(&d.0, buf, pn_off, payload_len, largest, long);
            },
            None => {},
        }
        match &space.crypto_open {
            Some(k) => open_packet(k, buf, pn_off, payload_len, largest, long),
            None => Err(Error::InvalidState),
        }
    }

    /// Opens the packet at the start of the datagram `buf`.
    #[verifier::rlimit(40)]
    fn open_arrival(&self, buf: &[u8]) -> (r: Result<Opened, Error>)
        requires
            self.wf(),
            buf@.len() > 0,
        ensures
            match arrival(self@, buf@) {
                Ok(a) => r matches Ok(v) && v@ == a && 0 < a.len <= buf@.len()
                    && a.pn <= MAX_PKT_NUM
                    && (v.derived matches Some(d) ==> d.0.wf() && d.1.wf()),
                Err(e) => r matches Err(e2) && e2 == e,
            },
    {
        proof {
            reveal(arrival);
            reveal(selected);
        }
        let (hdr, pn_off, payload_len) = self.read_bounds(buf)?;
        let long: bool = buf[0] >= 0x80;
        let (derived, level) = self.select_keys(&hdr)?;
        let opened = self.open_with(&derived, level, buf, pn_off, payload_len, long)?;
        let frames = parse_frames(opened.2.as_slice())?;
        self.check_frames(&frames)?;
        Ok(Opened { hdr, level, derived, pn: opened.0, frames, len: pn_off + payload_len })
    }

    /// Takes over from a packet's header what this side did not know.
    fn introduce(&mut self, scid: &[u8], derived: Option<(Keys, Keys)>)
        requires
            old(self).wf(),
            derived matches Some(d) ==> d.0.wf() && d.1.wf(),
        ensures
            final(self).wf(),
            final(self)@ == met(
                old(self)@,
                scid@,
                match derived {
                    Some((o, s)) => Some((o@, s@)),
                    None => None,
                },
            ),
    {
        if !self.is_server && !self.got_peer_conn_id {
            self.dcid = copy_range(scid, 0, scid.len());
            assert(self.dcid@ =~= scid@);
            self.got_peer_conn_id = true;
        }
        match derived {
            Some((open, seal)) => {
                self.initial.install_keys(open, seal);
                self.derived_initial_secrets = true;
                crate::octets::append(&mut self.dcid, scid);
                self.got_peer_conn_id = true;
            },
            None => {},
        }
    }

    /// Takes note of a packet with the number `pn` that arrived in the
    /// space of the given stage.
    fn note_packet(&mut self, level: Level, pn: u64, ack: bool)
        requires
            old(self).wf(),
            pn <= MAX_PKT_NUM,
        ensures
            final(self).wf(),
            final(self)@ == old(self)@.with_space(level, old(self)@.space(level).received(pn, ack)),
    {
        match level {
            Level::Initial => self.initial.on_packet(pn, ack),
            Level::Handshake => self.handshake.on_packet(pn, ack),
            Level::Application => self.application.on_packet(pn, ack),
        }
    }

    /// Takes in a packet that was opened.
    fn commit(&mut self, opened: Opened)
        requires
            old(self).wf(),
            opened@.pn <= MAX_PKT_NUM,
            opened.derived matches Some(d) ==> d.0.wf() && d.1.wf(),
        ensures
            final(self).wf(),
            final(self)@ == arrived(old(self)@, opened@),
    {
        let Opened { hdr, level, derived, pn, frames, len } = opened;
        self.introduce(hdr.scid.as_slice(), derived);
        let ack = self.apply_frames(level, frames);
        self.note_packet(level, pn, ack);
    }

    /// Takes in the datagram `buf`: opens the packet at its start, takes in
    /// the packet's frames, and returns the number of bytes that the packet
    /// took. `outcome` is what the handshake reported when it was last asked;
    /// it is taken note of first. A packet that cannot be taken in changes
    /// nothing.
    pub fn recv(&mut self, buf: &[u8], outcome: &Outcome) -> (r: Result<usize, Error>)
        requires
            old(self).wf(),
        ensures
            final(self).wf(),
            (final(self)@, r) == recv_spec(old(self)@, buf@, outcome@),
            r matches Ok(n) ==> 0 < n <= buf@.len(),
    {
        if buf.len() == 0 {
            return Err(Error::BufferTooShort);
        }
        match self.do_handshake(outcome) {
            Ok(_) => {},
            Err(e) => return Err(e),
        }
        let opened = match self.open_arrival(buf) {
            Ok(v) => v,
            Err(e) => return Err(e),
        };
        let len: usize = opened.len;
        self.commit(opened);
        Ok(len)
    }

    /// Takes in the frames of a packet of the given stage, one after the
    /// other, and says whether one of them asks for an acknowledgement.
    fn apply_frames(&mut self, level: Level, frames: Vec<Frame>) -> (ack: bool)
        requires
            old(self).wf(),
        ensures
            final(self).wf(),
            final(self)@ == frames_applied(old(self)@, level, frame_views(frames@), 0),
            ack == any_ack_eliciting(frame_views(frames@), 0),
    {
        let ghost fs = frame_views(frames@);
        let ghost n = frames@.len();
        let mut frames = frames;
        let mut ack: bool = false;
        let mut k: usize = 0;
        let total: usize = frames.len();
        proof {
            lemma_no_more_frames(self@, level, fs);
        }
        // The frames are taken from the end of the list, which holds them in
        // reverse from here on.
        reverse(&mut frames);
        while frames.len() > 0
            invariant
                self.wf(),
                0 <= k <= n,
                n == total,
                frames@.len() == n - k,
                n == fs.len(),
                forall|i: int| 0 <= i < frames@.len() ==> (#[trigger] frames@[i])@ == fs[n - 1 - i],
                frames_applied(old(self)@, level, fs, 0)
                    == frames_applied(self@, level, fs, k as int),
                any_ack_eliciting(fs, 0) == (ack || any_ack_eliciting(fs, k as int)),
            decreases frames@.len(),
        {
            let f = frames.pop().unwrap();
            assert(f@ == fs[k as int]);
            if f.ack_eliciting() {
                ack = true;
            }
            self.apply_frame(level, f);
            k += 1;
        }
        ack
    }
}

/// Reverses the order of the frames in `v`.
fn reverse(v: &mut Vec<Frame>)
    ensures
        final(v)@.len() == old(v)@.len(),
        forall|i: int| 0 <= i < old(v)@.len()
            ==> (#[trigger] final(v)@[i]) == old(v)@[old(v)@.len() - 1 - i],
{
    let mut out: Vec<Frame> = Vec::new();
    let ghost all = v@;
    while v.len() > 0
        invariant
            out@.len() + v@.len() == all.len(),
            forall|i: int| 0 <= i < v@.len() ==> (#[trigger] v@[i]) == all[i],
            forall|i: int| 0 <= i < out@.len() ==> (#[trigger] out@[i]) == all[all.len() - 1 - i],
        decreases v@.len(),
    {
        let f = v.pop().unwrap();
        out.push(f);
    }
    *v = out;
}

/// Whether `id` is among `v`.
fn contains_id(v: &Vec<u64>, id: u64) -> (r: bool)
    ensures
        r == v@.contains(id),
{
    let mut i: usize = 0;
    while i < v.len()
        invariant
            0 <= i <= v@.len(),
            forall|j: int| 0 <= j < i ==> v@[j] != id,
        decreases v@.len() - i,
    {
        if v[i] == id {
            return true;
        }
        i += 1;
    }
    false
}

/// Behind the last frame nothing is left to take in.
proof fn lemma_no_more_frames(c: ConnView, level: Level, fs: Seq<FrameView>)
    ensures
        frames_applied(c, level, fs, fs.len() as int) == c,
        !any_ack_eliciting(fs, fs.len() as int),
{
}


/// The stream `id` of the connection `c`, as it is or as it comes to be
/// when it is first spoken of.
pub open spec fn stream_of(c: ConnView, id: u64) -> StreamState {
    match find(c.streams, id) {
        Some(i) => c.streams[i].1,
        None => c.fresh_stream(),
    }
}

/// Bytes of a stream that arrive are the stream's bytes from then on,
/// where no byte arrived before them: after a STREAM frame within the
/// stream's limit was taken in, the stream holds for every offset the byte
/// that it held before, and else, from the offset on up to which the stream
/// was read, the byte that the frame has for it.
pub proof fn lemma_stream_frame_bytes(c: ConnView, level: Level, id: u64, data: Chunk, o: int)
    requires
        c.wf(),
        id <= MAX_VARINT,
        0 <= data.off,
        data.end() <= stream_limit(c, id),
    ensures
        ({
            let before = stream_of(c, id);
            let f = FrameView::Stream { stream_id: id, data };
            let after = stream_of(frame_applied(c, level, f), id);
            after.byte(o) == match before.byte(o) {
                Some(b) => Some(b),
                None => if o >= before.recv_off {
                    crate::stream::chunk_byte(data, o)
                } else {
                    None
                },
            }
        }),
{
    let t = c.with_stream(id);
    crate::conn::lemma_position(c.streams, id, 0);
    crate::conn::lemma_position(t, id, 0);
    if find(c.streams, id).is_none() {
        let n = c.streams.len() as int;
        assert(t[n] == (id, c.fresh_stream()));
        assert forall|j: int| 0 <= j < n implies (#[trigger] t[j]).0 != id by {
            assert(t[j] == c.streams[j]);
        }
        assert(find(t, id) == Some(n));
        crate::stream::lemma_new_stream_wf(
            c.local_transport_params.initial_max_stream_data_bidi_local as u64,
            c.peer_transport_params.initial_max_stream_data_bidi_remote as u64,
        );
    } else {
        let k = find(c.streams, id).unwrap();
        assert(c.streams[k].1.wf());
    }
    let i = find(t, id).unwrap();
    let before = t[i].1;
    assert(before == stream_of(c, id));
    crate::stream::lemma_received_bytes(before, data, o);
    let after = t.update(i, (id, stream_received(before, data)));
    assert(after[i] == (id, stream_received(before, data)));
    assert forall|j: int| 0 <= j < i implies (#[trigger] after[j]).0 != id by {
        assert(after[j] == t[j]);
    }
    crate::conn::lemma_position(after, id, 0);
    assert(find(after, id) == Some(i));
}

} // verus!
