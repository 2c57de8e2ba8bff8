//! Frames: the units of content inside a packet's protected payload, and
//! their wire form.

use vstd::prelude::*;
use crate::Error;
use crate::octets::{
    be16, u16_bytes, varint_at, varint_bytes, push_u16, push_varint, append,
    varint_size, Bytes, MAX_VARINT,
};
use crate::ranges::{canonical, RangeSet};
use crate::stream::{Chunk, RangeBuf, MAX_OFFSET};

verus! {

/// The most bytes that a CRYPTO frame takes besides its data.
pub const MAX_CRYPTO_OVERHEAD: u64 = 17;

/// The most bytes that a STREAM frame takes besides its data.
pub const MAX_STREAM_OVERHEAD: u64 = 25;

/// A frame as a mathematical value.
pub enum FrameView {
    Padding { len: int },
    ConnectionClose { error_code: u16, frame_type: u64, reason: Seq<u8> },
    ApplicationClose { error_code: u16, reason: Seq<u8> },
    MaxData { max: u64 },
    MaxStreamData { stream_id: u64, max: u64 },
    MaxStreamId { max: u64 },
    Ping,
    NewConnectionId { seq_num: u64, conn_id: Seq<u8>, reset_token: Seq<u8> },
    Ack { ack_delay: u64, ranges: Seq<(u64, u64)> },
    NewToken { token: Seq<u8> },
    Crypto { data: Chunk },
    Stream { stream_id: u64, data: Chunk },
}

/// A frame.
#[derive(Debug, PartialEq, Eq)]
pub enum Frame {
    Padding { len: usize },
    ConnectionClose { error_code: u16, frame_type: u64, reason: Vec<u8> },
    ApplicationClose { error_code: u16, reason: Vec<u8> },
    MaxData { max: u64 },
    MaxStreamData { stream_id: u64, max: u64 },
    MaxStreamId { max: u64 },
    Ping,
    NewConnectionId { seq_num: u64, conn_id: Vec<u8>, reset_token: Vec<u8> },
    ACK { ack_delay: u64, ranges: RangeSet },
    NewToken { token: Vec<u8> },
    Crypto { data: RangeBuf },
    Stream { stream_id: u64, data: RangeBuf },
}

impl View for Frame {
    type V = FrameView;

    open spec fn view(&self) -> FrameView {
        match self {
            Frame::Padding { len } => FrameView::Padding { len: *len as int },
            Frame::ConnectionClose { error_code, frame_type,
                reason } => FrameView::ConnectionClose {
                error_code: *error_code,
                frame_type: *frame_type,
                reason: reason@,
            },
            Frame::ApplicationClose { error_code, reason } => FrameView::ApplicationClose {
                error_code: *error_code,
                reason: reason@,
            },
            Frame::MaxData { max } => FrameView::MaxData { max: *max },
            Frame::MaxStreamData { stream_id, max } => FrameView::MaxStreamData {
                stream_id: *stream_id,
                max: *max,
            },
            Frame::MaxStreamId { max } => FrameView::MaxStreamId { max: *max },
            Frame::Ping => FrameView::Ping,
            Frame::NewConnectionId { seq_num, conn_id, reset_token } => FrameView::NewConnectionId {
                seq_num: *seq_num,
                conn_id: conn_id@,
                reset_token: reset_token@,
            },
            Frame::ACK { ack_delay, ranges } => FrameView::Ack {
                ack_delay: *ack_delay,
                ranges: ranges@,
            },
            Frame::NewToken { token } => FrameView::NewToken { token: token@ },
            Frame::Crypto { data } => FrameView::Crypto { data: data@ },
            Frame::Stream { stream_id, data } => FrameView::Stream {
                stream_id: *stream_id,
                data: data@,
            },
        }
    }
}

/// A byte string with its length before it, as a variable-length integer.
pub open spec fn sized_bytes(d: Seq<u8>) -> Seq<u8> {
    varint_bytes(d.len() as u64) + d
}

/// The gaps and lengths of the ranges `r[0]` to `r[i]` as an ACK frame
/// lists them, from the highest of them down: for each the number of
/// integers missing between it and the range above, less one, and the number
/// of integers in it, less one.
pub open spec fn ack_tail(r: Seq<(u64, u64)>, i: int) -> Seq<u8>
    decreases i + 1,
{
    if i < 0 {
        Seq::empty()
    } else {
        varint_bytes((r[i + 1].0 - r[i].1 - 2) as u64) + varint_bytes((r[i].1 - r[i].0) as u64)
            + ack_tail(r, i - 1)
    }
}

/// `n` zero bytes.
pub open spec fn zeros(n: int) -> Seq<u8> {
    Seq::new(n as nat, |i: int| 0u8)
}

impl FrameView {
    /// Whether the frame can be written: its numbers fit variable-length
    /// integers, its byte strings their length fields, its chunk the offsets
    /// of a stream, and an ACK frame lists at least one range, canonically.
    pub open spec fn wf(self) -> bool {
        match self {
            FrameView::Padding { len } => 0 <= len,
            FrameView::ConnectionClose { error_code, frame_type, reason } => frame_type
                <= MAX_VARINT && reason.len() <= MAX_VARINT,
            FrameView::ApplicationClose { error_code, reason } => reason.len() <= MAX_VARINT,
            FrameView::MaxData { max } => max <= MAX_VARINT,
            FrameView::MaxStreamData { stream_id, max } => stream_id <= MAX_VARINT && max
                <= MAX_VARINT,
            FrameView::MaxStreamId { max } => max <= MAX_VARINT,
            FrameView::Ping => true,
            FrameView::NewConnectionId { seq_num, conn_id, reset_token } => seq_num <= MAX_VARINT
                && conn_id.len() <= 255 && reset_token.len() == 16,
            FrameView::Ack { ack_delay, ranges } => ack_delay <= MAX_VARINT && 0 < ranges.len()
                <= MAX_VARINT + 1 && canonical(ranges) && ranges.last().1 <= MAX_VARINT,
            FrameView::NewToken { token } => token.len() <= MAX_VARINT,
            FrameView::Crypto { data } => 0 <= data.off && data.end() <= MAX_OFFSET,
            FrameView::Stream { stream_id, data } => stream_id <= MAX_VARINT && 0 <= data.off
                && data.end() <= MAX_OFFSET,
        }
    }

    /// The frame on the wire. A STREAM frame is written with its offset and
    /// its length.
    pub open spec fn bytes(self) -> Seq<u8> {
        match self {
            FrameView::Padding { len } => zeros(len),
            FrameView::ConnectionClose { error_code, frame_type, reason } => seq![0x02u8]
                + u16_bytes(error_code) + varint_bytes(frame_type) + sized_bytes(reason),
            FrameView::ApplicationClose { error_code, reason } => seq![0x03u8] + u16_bytes(
                error_code,
            ) + sized_bytes(reason),
            FrameView::MaxData { max } => seq![0x04u8] + varint_bytes(max),
            FrameView::MaxStreamData { stream_id, max } => seq![0x05u8] + varint_bytes(stream_id)
                + varint_bytes(max),
            FrameView::MaxStreamId { max } => seq![0x06u8] + varint_bytes(max),
            FrameView::Ping => seq![0x07u8],
            FrameView::NewConnectionId { seq_num, conn_id, reset_token } => seq![0x0bu8]
                + varint_bytes(seq_num) + seq![conn_id.len() as u8] + conn_id + reset_token,
            FrameView::Ack { ack_delay, ranges } => {
                let top = ranges.last();
                seq![0x0du8] + varint_bytes(top.1) + varint_bytes(ack_delay) + varint_bytes(
                    (ranges.len() - 1) as u64,
                ) + varint_bytes((top.1 - top.0) as u64) + ack_tail(ranges, ranges.len() - 2)
            },
            FrameView::NewToken { token } => seq![0x19u8] + sized_bytes(token),
            FrameView::Crypto { data } => seq![0x18u8] + varint_bytes(data.off as u64)
                + sized_bytes(data.data),
            FrameView::Stream { stream_id, data } => seq![
                if data.fin {
                    0x17u8
                } else {
                    0x16u8
                },
            ] + varint_bytes(stream_id) + varint_bytes(data.off as u64) + sized_bytes(data.data),
        }
    }

    /// Whether the frame asks for an acknowledgement: all do but padding
    /// and acknowledgements themselves.
    pub open spec fn ack_eliciting(self) -> bool {
        !(self is Padding) && !(self is Ack)
    }
}

/// The number of zero bytes that stand in `s` from `i` on.
pub open spec fn zeros_at(s: Seq<u8>, i: int) -> int
    decreases s.len() - i,
{
    if 0 <= i < s.len() && s[i] == 0 {
        1 + zeros_at(s, i + 1)
    } else {
        0
    }
}

/// The `n` bytes at `i`, with the offset behind them; `None` where `s` ends
/// before.
pub open spec fn bytes_at(s: Seq<u8>, i: int, n: int) -> Option<(Seq<u8>, int)> {
    if 0 <= i && 0 <= n && i + n <= s.len() {
        Some((s.subrange(i, i + n), i + n))
    } else {
        None
    }
}

/// The byte string at `i` that has its length before it, with the offset
/// behind it.
pub open spec fn sized_at(s: Seq<u8>, i: int) -> Option<(Seq<u8>, int)> {
    match varint_at(s, i) {
        Some((n, j)) => bytes_at(s, j, n as int),
        None => None,
    }
}

/// The ranges that an ACK frame lists from `i` on, `count` of them, each
/// given by its gap to the range above, whose lowest integer is `smallest`,
/// and by its length. They are put before `acc`, the lowest first. A gap or a
/// length that leads below zero is refused.
pub open spec fn ack_ranges_at(s: Seq<u8>, i: int, count: int, smallest: u64, acc: Seq<(u64, u64)>)
    -> Result<(Seq<(u64, u64)>, int), Error>
    decreases count,
{
    if count <= 0 {
        Ok((acc, i))
    } else {
        match varint_at(s, i) {
            None => Err(Error::BufferTooShort),
            Some((gap, j)) => match varint_at(s, j) {
                None => Err(Error::BufferTooShort),
                Some((len, k)) => {
                    if smallest < gap + 2 || smallest - gap - 2 < len {
                        Err(Error::InvalidPacket)
                    } else {
                        let hi = (smallest - gap - 2) as u64;
                        let lo = (hi - len) as u64;
                        ack_ranges_at(s, k, count - 1, lo, seq![(lo, hi)] + acc)
                    }
                },
            },
        }
    }
}

/// The ACK frame whose fields stand at `i`, behind its type.
pub open spec fn ack_at(s: Seq<u8>, i: int) -> Result<(FrameView, int), Error> {
    match varint_at(s, i) {
        None => Err(Error::BufferTooShort),
        Some((largest, j)) => match varint_at(s, j) {
            None => Err(Error::BufferTooShort),
            Some((ack_delay, k)) => match varint_at(s, k) {
                None => Err(Error::BufferTooShort),
                Some((count, l)) => match varint_at(s, l) {
                    None => Err(Error::BufferTooShort),
                    Some((first, m)) => {
                        if largest < first {
                            Err(Error::InvalidPacket)
                        } else {
                            let lo = (largest - first) as u64;
                            match ack_ranges_at(s, m, count as int, lo, seq![(lo, largest)]) {
                                Ok((ranges, n)) => Ok((FrameView::Ack { ack_delay, ranges }, n)),
                                Err(e) => Err(e),
                            }
                        }
                    },
                },
            },
        }
    }
}

/// The chunk that a CRYPTO frame, or a STREAM frame with `has_len`, holds
/// at `i`: its length, then its bytes; without `has_len`, all bytes up to the
/// end of `s`. A chunk that would end above the greatest offset is refused.
pub open spec fn chunk_at(s: Seq<u8>, i: int, off: u64, has_len: bool, fin: bool) -> Result<
    (Chunk, int),
    Error,
> {
    let sized = if has_len {
        sized_at(s, i)
    } else {
        bytes_at(s, i, s.len() - i)
    };
    match sized {
        None => Err(Error::BufferTooShort),
        Some((d, j)) => if off + d.len() > MAX_OFFSET {
            Err(Error::FlowControl)
        } else {
            Ok((Chunk { data: d, off: off as int, fin }, j))
        },
    }
}

/// The STREAM frame of type `ty` whose fields stand at `i`. The three low
/// bits of the type say whether an offset and a length are given, and
/// whether the stream ends with the frame.
pub open spec fn stream_at(s: Seq<u8>, i: int, ty: u8) -> Result<(FrameView, int), Error> {
    let has_off = (ty / 4) % 2 == 1;
    let has_len = (ty / 2) % 2 == 1;
    let fin = ty % 2 == 1;
    match varint_at(s, i) {
        None => Err(Error::BufferTooShort),
        Some((stream_id, j)) => {
            let off = if has_off {
                varint_at(s, j)
            } else {
                Some((0u64, j))
            };
            match off {
                None => Err(Error::BufferTooShort),
                Some((o, k)) => match chunk_at(s, k, o, has_len, fin) {
                    Ok((data, l)) => Ok((FrameView::Stream { stream_id, data }, l)),
                    Err(e) => Err(e),
                },
            }
        },
    }
}

/// The CONNECTION_CLOSE (type 0x02) or APPLICATION_CLOSE frame whose fields
/// stand at `at`.
pub open spec fn close_at(s: Seq<u8>, at: int, ty: u8) -> Result<(FrameView, int), Error> {
    if at < 0 || at + 2 > s.len() {
        Err(Error::BufferTooShort)
    } else if ty == 0x02 {
        match varint_at(s, at + 2) {
            None => Err(Error::BufferTooShort),
            Some((frame_type, j)) => match sized_at(s, j) {
                None => Err(Error::BufferTooShort),
                Some((reason, k)) => Ok(
                    (
                        FrameView::ConnectionClose {
                            error_code: be16(s, at) as u16,
                            frame_type,
                            reason,
                        },
                        k,
                    ),
                ),
            },
        }
    } else {
        match sized_at(s, at + 2) {
            None => Err(Error::BufferTooShort),
            Some((reason, k)) => Ok(
                (FrameView::ApplicationClose { error_code: be16(s, at) as u16, reason }, k),
            ),
        }
    }
}

/// The MAX_DATA (type 0x04), MAX_STREAM_DATA (0x05) or MAX_STREAM_ID frame
/// whose fields stand at `at`.
pub open spec fn limit_at(s: Seq<u8>, at: int, ty: u8) -> Result<(FrameView, int), Error> {
    match varint_at(s, at) {
        None => Err(Error::BufferTooShort),
        Some((first, j)) => if ty == 0x04 {
            Ok((FrameView::MaxData { max: first }, j))
        } else if ty == 0x05 {
            match varint_at(s, j) {
                None => Err(Error::BufferTooShort),
                Some((max, k)) => Ok((FrameView::MaxStreamData { stream_id: first, max }, k)),
            }
        } else {
            Ok((FrameView::MaxStreamId { max: first }, j))
        },
    }
}

/// The NEW_CONNECTION_ID frame whose fields stand at `at`.
pub open spec fn new_conn_id_at(s: Seq<u8>, at: int) -> Result<(FrameView, int), Error> {
    match varint_at(s, at) {
        None => Err(Error::BufferTooShort),
        Some((seq_num, j)) => if j >= s.len() {
            Err(Error::BufferTooShort)
        } else {
            match bytes_at(s, j + 1, s[j] as int) {
                None => Err(Error::BufferTooShort),
                Some((conn_id, k)) => match bytes_at(s, k, 16) {
                    None => Err(Error::BufferTooShort),
                    Some((reset_token, l)) => Ok(
                        (FrameView::NewConnectionId { seq_num, conn_id, reset_token }, l),
                    ),
                },
            }
        },
    }
}

/// The NEW_TOKEN (type 0x19) or CRYPTO frame whose fields stand at `at`.
pub open spec fn token_or_crypto_at(s: Seq<u8>, at: int, ty: u8)
    -> Result<(FrameView, int), Error> {
    if ty == 0x19 {
        match sized_at(s, at) {
            None => Err(Error::BufferTooShort),
            Some((token, j)) => Ok((FrameView::NewToken { token }, j)),
        }
    } else {
        match varint_at(s, at) {
            None => Err(Error::BufferTooShort),
            Some((off, j)) => match chunk_at(s, j, off, true, false) {
                Ok((data, k)) => Ok((FrameView::Crypto { data }, k)),
                Err(e) => Err(e),
            },
        }
    }
}

/// The frame that stands at `i`, with the offset behind it. A run of zero
/// bytes is one PADDING frame.
pub open spec fn frame_at(s: Seq<u8>, i: int) -> Result<(FrameView, int), Error> {
    if i < 0 || i >= s.len() {
        Err(Error::BufferTooShort)
    } else {
        let ty = s[i];
        let at = i + 1;
        if ty == 0x00 {
            Ok((FrameView::Padding { len: zeros_at(s, i) }, i + zeros_at(s, i)))
        } else if ty == 0x02 || ty == 0x03 {
            close_at(s, at, ty)
        } else if ty == 0x04 || ty == 0x05 || ty == 0x06 {
            limit_at(s, at, ty)
        } else if ty == 0x07 {
            Ok((FrameView::Ping, at))
        } else if ty == 0x0b {
            new_conn_id_at(s, at)
        } else if ty == 0x0d {
            ack_at(s, at)
        } else if ty == 0x19 || ty == 0x18 {
            token_or_crypto_at(s, at, ty)
        } else if 0x10 <= ty <= 0x17 {
            stream_at(s, at, ty)
        } else {
            Err(Error::UnknownFrame)
        }
    }
}

/// The frames that fill `s` from `i` to its end, in their order.
#[verifier::opaque]
pub open spec fn frames_at(s: Seq<u8>, i: int) -> Result<Seq<FrameView>, Error>
    decreases s.len() - i,
{
    if i < 0 || i >= s.len() {
        Ok(Seq::empty())
    } else {
        match frame_at(s, i) {
            Err(e) => Err(e),
            Ok((f, j)) => if j <= i || j > s.len() {
                Err(Error::InvalidPacket)
            } else {
                match frames_at(s, j) {
                    Err(e) => Err(e),
                    Ok(rest) => Ok(seq![f] + rest),
                }
            },
        }
    }
}


/// Reads `n` bytes, where `n` was read off the wire.
fn take(b: &mut Bytes, n: u64) -> (r: Result<Vec<u8>, Error>)
    requires
        old(b).wf(),
    ensures
        final(b).wf(),
        final(b).data() == old(b).data(),
        match bytes_at(old(b).data(), old(b).pos(), n as int) {
            Some((d, j)) => r matches Ok(v) && v@ == d && final(b).pos() == j,
            None => r matches Err(e) && e == Error::BufferTooShort,
        },
{
    if n > b.cap() as u64 {
        return Err(Error::BufferTooShort);
    }
    b.get_bytes(n as usize)
}

/// Reads a byte string that has its length before it.
fn take_sized(b: &mut Bytes) -> (r: Result<Vec<u8>, Error>)
    requires
        old(b).wf(),
    ensures
        final(b).wf(),
        final(b).data() == old(b).data(),
        match sized_at(old(b).data(), old(b).pos()) {
            Some((d, j)) => r matches Ok(v) && v@ == d && final(b).pos() == j && d.len()
                <= MAX_VARINT,
            None => r matches Err(e) && e == Error::BufferTooShort,
        },
{
    let n: u64 = b.get_varint()?;
    take(b, n)
}

/// Reads the chunk of a CRYPTO or STREAM frame.
fn take_chunk(b: &mut Bytes, off: u64, has_len: bool, fin: bool) -> (r: Result<RangeBuf, Error>)
    requires
        old(b).wf(),
    ensures
        final(b).wf(),
        final(b).data() == old(b).data(),
        match chunk_at(old(b).data(), old(b).pos(), off, has_len, fin) {
            Ok((c, j)) => r matches Ok(v) && v@ == c && final(b).pos() == j && v.wf(),
            Err(e) => r matches Err(e2) && e2 == e,
        },
{
    let data: Vec<u8> = if has_len {
        take_sized(b)?
    } else {
        let n: usize = b.cap();
        b.get_bytes(n)?
    };
    if off > MAX_OFFSET || data.len() as u64 > MAX_OFFSET - off {
        return Err(Error::FlowControl);
    }
    Ok(RangeBuf { data, off, fin })
}

/// A range that lies below all ranges of a canonical list, with a gap, can
/// stand before them.
proof fn lemma_prepend_canonical(before: Seq<(u64, u64)>, lo: u64, hi: u64)
    requires
        canonical(before),
        before.len() > 0,
        lo <= hi,
        hi + 1 < before[0].0,
    ensures
        canonical(seq![(lo, hi)] + before),
        (seq![(lo, hi)] + before).last() == before.last(),
        (seq![(lo, hi)] + before)[0] == (lo, hi),
{
    let v = seq![(lo, hi)] + before;
    assert forall|x: int, y: int| 0 <= x < y < v.len() implies (#[trigger] v[x]).1 + 1 < (
    #[trigger] v[y]).0 by {
        assert(v[y] == before[y - 1]);
        if x == 0 {
            if y > 1 {
                assert(before[0].1 + 1 < before[y - 1].0);
                assert(before[0].0 <= before[0].1);
            }
        } else {
            assert(v[x] == before[x - 1]);
        }
    }
    assert forall|x: int| 0 <= x < v.len() implies (#[trigger] v[x]).0 <= v[x].1 by {
        if x > 0 {
            assert(v[x] == before[x - 1]);
        }
    }
}

/// Reads the ranges that an ACK frame lists behind its first.
fn take_ack_ranges(b: &mut Bytes, count: u64, lowest: u64, largest: u64) -> (r: Result<
    Vec<(u64, u64)>,
    Error,
>)
    requires
        old(b).wf(),
        lowest <= largest,
    ensures
        final(b).wf(),
        final(b).data() == old(b).data(),
        match ack_ranges_at(
            old(b).data(),
            old(b).pos(),
            count as int,
            lowest,
            seq![(lowest, largest)],
        ) {
            Ok((ranges, j)) => r matches Ok(v) && v@ == ranges && final(b).pos() == j && canonical(
                ranges,
            ) && ranges.len() == count + 1 && ranges.last().1 == largest && old(b).pos() <= j,
            Err(e) => r matches Err(e2) && e2 == e,
        },
{
    let mut smallest: u64 = lowest;
    let mut v: Vec<(u64, u64)> = Vec::new();
    v.push((smallest, largest));
    assert(v@ =~= seq![(lowest, largest)]);
    let mut i: u64 = 0;
    while i < count
        invariant
            0 <= i <= count,
            b.wf(),
            b.data() == old(b).data(),
            old(b).pos() <= b.pos(),
            v@.len() == i + 1,
            canonical(v@),
            v@[0].0 == smallest,
            v@.last().1 == largest,
            ack_ranges_at(b.data(), b.pos(), count - i, smallest, v@) == ack_ranges_at(
                old(b).data(),
                old(b).pos(),
                count as int,
                lowest,
                seq![(lowest, largest)],
            ),
        decreases count - i,
    {
        let gap: u64 = match b.get_varint() {
            Ok(x) => x,
            Err(e) => return Err(e),
        };
        let len: u64 = match b.get_varint() {
            Ok(x) => x,
            Err(e) => return Err(e),
        };
        if smallest < gap + 2 || smallest - gap - 2 < len {
            return Err(Error::InvalidPacket);
        }
        let hi: u64 = smallest - gap - 2;
        let lo: u64 = hi - len;
        let ghost before = v@;
        v.insert(0, (lo, hi));
        proof {
            assert(v@ =~= seq![(lo, hi)] + before);
            lemma_prepend_canonical(before, lo, hi);
        }
        smallest = lo;
        i += 1;
    }
    Ok(v)
}

/// Reads the fields of an ACK frame.
fn take_ack(b: &mut Bytes) -> (r: Result<Frame, Error>)
    requires
        old(b).wf(),
    ensures
        final(b).wf(),
        final(b).data() == old(b).data(),
        match ack_at(old(b).data(), old(b).pos()) {
            Ok((f, j)) => r matches Ok(v) && v@ == f && final(b).pos() == j && f.wf()
                && old(b).pos() < j
                <= old(b).data().len(),
            Err(e) => r matches Err(e2) && e2 == e,
        },
{
    let largest: u64 = b.get_varint()?;
    let ack_delay: u64 = b.get_varint()?;
    let count: u64 = b.get_varint()?;
    let first: u64 = b.get_varint()?;
    if largest < first {
        return Err(Error::InvalidPacket);
    }
    let v = take_ack_ranges(b, count, largest - first, largest)?;
    match RangeSet::from_ranges(v) {
        Some(ranges) => Ok(Frame::ACK { ack_delay, ranges }),
        None => Err(Error::InvalidPacket),
    }
}

/// Reads the fields of a STREAM frame of type `ty`.
fn take_stream(b: &mut Bytes, ty: u8) -> (r: Result<Frame, Error>)
    requires
        old(b).wf(),
        0x10 <= ty <= 0x17,
    ensures
        final(b).wf(),
        final(b).data() == old(b).data(),
        match stream_at(old(b).data(), old(b).pos(), ty) {
            Ok((f, j)) => r matches Ok(v) && v@ == f && final(b).pos() == j && f.wf()
                && old(b).pos() < j
                <= old(b).data().len(),
            Err(e) => r matches Err(e2) && e2 == e,
        },
{
    let has_off: bool = (ty / 4) % 2 == 1;
    let has_len: bool = (ty / 2) % 2 == 1;
    let fin: bool = ty % 2 == 1;
    let stream_id: u64 = b.get_varint()?;
    let off: u64 = if has_off {
        b.get_varint()?
    } else {
        0
    };
    let data = take_chunk(b, off, has_len, fin)?;
    Ok(Frame::Stream { stream_id, data })
}

/// Whether a zero byte stands at the cursor.
fn at_zero(b: &Bytes) -> (r: bool)
    requires
        b.wf(),
    ensures
        r == (b.has(1) && b.data()[b.pos()] == 0),
{
    match b.peek_u8() {
        Ok(v) => v == 0,
        Err(_) => false,
    }
}

/// Reads a run of zero bytes.
fn take_padding(b: &mut Bytes) -> (r: Frame)
    requires
        old(b).wf(),
    ensures
        final(b).wf(),
        final(b).data() == old(b).data(),
        r@ == (FrameView::Padding { len: zeros_at(old(b).data(), old(b).pos()) }),
        final(b).pos() == old(b).pos() + zeros_at(old(b).data(), old(b).pos()),
{
    let mut len: usize = 0;
    let total: usize = b.len();
    while at_zero(b)
        invariant
            b.wf(),
            b.data() == old(b).data(),
            total == b.data().len(),
            old(b).wf(),
            b.pos() == old(b).pos() + len,
            zeros_at(old(b).data(), old(b).pos()) == len + zeros_at(b.data(), b.pos()),
        decreases b.data().len() - b.pos(),
    {
        let _ = b.skip(1);
        len = len + 1;
    }
    Frame::Padding { len }
}

/// Reads the fields of a frame that closes the connection.
fn take_close(b: &mut Bytes, ty: u8) -> (r: Result<Frame, Error>)
    requires
        old(b).wf(),
        ty == 0x02 || ty == 0x03,
    ensures
        final(b).wf(),
        final(b).data() == old(b).data(),
        match close_at(old(b).data(), old(b).pos(), ty) {
            Ok((f, j)) => r matches Ok(v) && v@ == f && final(b).pos() == j && f.wf()
                && old(b).pos() < j
                <= old(b).data().len(),
            Err(e) => r matches Err(e2) && e2 == e,
        },
{
    let error_code: u16 = b.get_u16()?;
    if ty == 0x02 {
        let frame_type: u64 = b.get_varint()?;
        let reason = take_sized(b)?;
        Ok(Frame::ConnectionClose { error_code, frame_type, reason })
    } else {
        let reason = take_sized(b)?;
        Ok(Frame::ApplicationClose { error_code, reason })
    }
}

/// Reads the fields of a frame that raises a limit.
fn take_limit(b: &mut Bytes, ty: u8) -> (r: Result<Frame, Error>)
    requires
        old(b).wf(),
        ty == 0x04 || ty == 0x05 || ty == 0x06,
    ensures
        final(b).wf(),
        final(b).data() == old(b).data(),
        match limit_at(old(b).data(), old(b).pos(), ty) {
            Ok((f, j)) => r matches Ok(v) && v@ == f && final(b).pos() == j && f.wf()
                && old(b).pos() < j
                <= old(b).data().len(),
            Err(e) => r matches Err(e2) && e2 == e,
        },
{
    let first: u64 = b.get_varint()?;
    if ty == 0x04 {
        Ok(Frame::MaxData { max: first })
    } else if ty == 0x05 {
        let max: u64 = b.get_varint()?;
        Ok(Frame::MaxStreamData { stream_id: first, max })
    } else {
        Ok(Frame::MaxStreamId { max: first })
    }
}

/// Reads the fields of a NEW_CONNECTION_ID frame.
fn take_new_conn_id(b: &mut Bytes) -> (r: Result<Frame, Error>)
    requires
        old(b).wf(),
    ensures
        final(b).wf(),
        final(b).data() == old(b).data(),
        match new_conn_id_at(old(b).data(), old(b).pos()) {
            Ok((f, j)) => r matches Ok(v) && v@ == f && final(b).pos() == j && f.wf()
                && old(b).pos() < j
                <= old(b).data().len(),
            Err(e) => r matches Err(e2) && e2 == e,
        },
{
    let seq_num: u64 = b.get_varint()?;
    let n: u8 = b.get_u8()?;
    let conn_id = take(b, n as u64)?;
    let reset_token = take(b, 16)?;
    Ok(Frame::NewConnectionId { seq_num, conn_id, reset_token })
}

/// Reads the fields of a NEW_TOKEN or CRYPTO frame.
fn take_token_or_crypto(b: &mut Bytes, ty: u8) -> (r: Result<Frame, Error>)
    requires
        old(b).wf(),
        ty == 0x19 || ty == 0x18,
    ensures
        final(b).wf(),
        final(b).data() == old(b).data(),
        match token_or_crypto_at(old(b).data(), old(b).pos(), ty) {
            Ok((f, j)) => r matches Ok(v) && v@ == f && final(b).pos() == j && f.wf()
                && old(b).pos() < j
                <= old(b).data().len(),
            Err(e) => r matches Err(e2) && e2 == e,
        },
{
    if ty == 0x19 {
        let token = take_sized(b)?;
        Ok(Frame::NewToken { token })
    } else {
        let off: u64 = b.get_varint()?;
        let data = take_chunk(b, off, true, false)?;
        Ok(Frame::Crypto { data })
    }
}

impl Frame {
    /// See `FrameView::wf`.
    pub open spec fn wf(&self) -> bool {
        self@.wf()
    }

    /// Whether the frame asks for an acknowledgement.
    pub fn ack_eliciting(&self) -> (r: bool)
        ensures
            r == self@.ack_eliciting(),
    {
        match self {
            Frame::Padding { .. } => false,
            Frame::ACK { .. } => false,
            _ => true,
        }
    }

    /// Reads the frame at the cursor and moves the cursor behind it. A
    /// frame that cannot be read leaves the cursor where it was.
    pub fn from_bytes(b: &mut Bytes) -> (r: Result<Frame, Error>)
        requires
            old(b).wf(),
        ensures
            final(b).wf(),
            final(b).data() == old(b).data(),
            match frame_at(old(b).data(), old(b).pos()) {
                Ok((f, j)) => r matches Ok(v) && v@ == f && final(b).pos() == j && f.wf()
                    && old(b).pos() < j <= old(b).data().len(),
                Err(e) => r matches Err(e2) && e2 == e && final(b).pos() == old(b).pos(),
            },
    {
        let start: usize = b.off();
        let r = Frame::parse(b);
        if r.is_err() {
            let _ = b.seek(start);
        }
        r
    }

    /// Reads the frame at the cursor.
    fn parse(b: &mut Bytes) -> (r: Result<Frame, Error>)
        requires
            old(b).wf(),
        ensures
            final(b).wf(),
            final(b).data() == old(b).data(),
            match frame_at(old(b).data(), old(b).pos()) {
                Ok((f, j)) => r matches Ok(v) && v@ == f && final(b).pos() == j && f.wf()
                    && old(b).pos() < j <= old(b).data().len(),
                Err(e) => r matches Err(e2) && e2 == e,
            },
    {
        let ty: u8 = b.peek_u8()?;
        if ty == 0x00 {
            let r = take_padding(b);
            assert(zeros_at(old(b).data(), old(b).pos()) == 1 + zeros_at(
                old(b).data(),
                old(b).pos() + 1,
            ));
            proof {
                lemma_zeros_at_bounds(old(b).data(), old(b).pos() + 1);
            }
            return Ok(r);
        }
        let _ = b.skip(1);
        let r = if ty == 0x02 || ty == 0x03 {
            take_close(b, ty)
        } else if ty == 0x04 || ty == 0x05 || ty == 0x06 {
            take_limit(b, ty)
        } else if ty == 0x07 {
            Ok(Frame::Ping)
        } else if ty == 0x0b {
            take_new_conn_id(b)
        } else if ty == 0x0d {
            take_ack(b)
        } else if ty == 0x19 || ty == 0x18 {
            take_token_or_crypto(b, ty)
        } else if 0x10 <= ty && ty <= 0x17 {
            take_stream(b, ty)
        } else {
            Err(Error::UnknownFrame)
        };
        r
    }
}

/// A run of zero bytes ends within the buffer.
pub proof fn lemma_zeros_at_bounds(s: Seq<u8>, i: int)
    requires
        0 <= i,
    ensures
        0 <= zeros_at(s, i),
        i < s.len() ==> i + zeros_at(s, i) <= s.len(),
    decreases s.len() - i,
{
    if i < s.len() && s[i] == 0 {
        lemma_zeros_at_bounds(s, i + 1);
    }
}


/// The frames that a list holds, as mathematical values.
pub open spec fn frame_views(v: Seq<Frame>) -> Seq<FrameView> {
    Seq::new(v.len(), |i: int| v[i]@)
}

/// The frames `a` before the frames that `r` holds, where it holds any.
pub open spec fn after(a: Seq<FrameView>, r: Result<Seq<FrameView>, Error>) -> Result<
    Seq<FrameView>,
    Error,
> {
    match r {
        Ok(rest) => Ok(a + rest),
        Err(e) => Err(e),
    }
}

/// A STREAM frame takes at most `MAX_STREAM_OVERHEAD` bytes besides its
/// data.
pub proof fn lemma_stream_frame_len(stream_id: u64, data: Chunk)
    ensures
        (FrameView::Stream { stream_id, data }).bytes().len() <= MAX_STREAM_OVERHEAD
            + data.data.len(),
{
}

/// A frame added to a list adds its bytes to the list's bytes.
pub proof fn lemma_frames_bytes_push(fs: Seq<FrameView>, f: FrameView)
    ensures
        frames_bytes(fs.push(f)) == frames_bytes(fs) + f.bytes(),
{
    assert(fs.push(f).drop_last() =~= fs);
}

/// The bytes of the frames in `fs`, one frame after the other.
pub open spec fn frames_bytes(fs: Seq<FrameView>) -> Seq<u8>
    decreases fs.len(),
{
    if fs.len() == 0 {
        Seq::empty()
    } else {
        frames_bytes(fs.drop_last()) + fs.last().bytes()
    }
}

/// Appends a byte string with its length before it.
fn push_sized(out: &mut Vec<u8>, d: &[u8])
    requires
        d@.len() <= MAX_VARINT,
    ensures
        final(out)@ == old(out)@ + sized_bytes(d@),
{
    push_varint(out, d.len() as u64);
    append(out, d);
    assert(out@ =~= old(out)@ + sized_bytes(d@));
}

/// The number of bytes that a variable-length integer takes.
fn varint_width(x: u64) -> (n: u64)
    ensures
        n == varint_bytes(x).len(),
        1 <= n <= 8,
{
    varint_size(x) as u64
}

/// The number of bytes that a byte string with its length before it takes.
fn sized_len(d: &[u8]) -> (n: u64)
    requires
        d@.len() <= MAX_VARINT,
    ensures
        n == sized_bytes(d@).len(),
        n <= d@.len() + 8,
{
    varint_size(d.len() as u64) as u64 + d.len() as u64
}

/// Appends an ACK frame for the ranges in `ranges`.
fn push_ack(out: &mut Vec<u8>, ack_delay: u64, ranges: &RangeSet)
    requires
        (FrameView::Ack { ack_delay, ranges: ranges@ }).wf(),
    ensures
        final(out)@ == old(out)@ + (FrameView::Ack { ack_delay, ranges: ranges@ }).bytes(),
{
    let n: usize = ranges.len();
    let top = ranges.get(n - 1);
    let ghost r = ranges@;
    out.push(0x0d);
    push_varint(out, top.1);
    push_varint(out, ack_delay);
    push_varint(out, (n - 1) as u64);
    push_varint(out, top.1 - top.0);
    let ghost head = out@;
    assert(head =~= old(out)@ + (seq![0x0du8] + varint_bytes(top.1) + varint_bytes(ack_delay)
        + varint_bytes((r.len() - 1) as u64) + varint_bytes((top.1 - top.0) as u64)));
    let mut i: usize = n - 1;
    while i > 0
        invariant
            0 <= i <= n - 1,
            n == r.len(),
            r == ranges@,
            canonical(r),
            r.last().1 <= MAX_VARINT,
            out@ + ack_tail(r, i - 1) == head + ack_tail(r, n - 2),
        decreases i,
    {
        let above = ranges.get(i);
        let cur = ranges.get(i - 1);
        proof {
            assert(r[i - 1].1 + 1 < r[i as int].0);
            assert(r[i as int].0 <= r[i as int].1);
            if i < n - 1 {
                assert(r[i as int].1 + 1 < r[n - 1].0);
                assert(r[n - 1].0 <= r[n - 1].1);
            }
            assert(r[i - 1].0 <= r[i - 1].1);
        }
        let ghost before = out@;
        push_varint(out, above.0 - cur.1 - 2);
        push_varint(out, cur.1 - cur.0);
        proof {
            let step = varint_bytes((r[i as int].0 - r[i - 1].1 - 2) as u64) + varint_bytes(
                (r[i - 1].1 - r[i - 1].0) as u64,
            );
            assert(ack_tail(r, i - 1) == step + ack_tail(r, i - 2));
            assert(out@ =~= before + step);
            assert(out@ + ack_tail(r, i - 2) =~= before + ack_tail(r, i - 1));
        }
        i -= 1;
    }
    proof {
        assert(ack_tail(r, -1) =~= Seq::<u8>::empty());
        assert(out@ =~= out@ + ack_tail(r, -1));
        assert(out@ =~= old(out)@ + (FrameView::Ack { ack_delay, ranges: r }).bytes());
    }
}

impl Frame {
    /// The frame on the wire.
    pub fn encode(&self) -> (r: Vec<u8>)
        requires
            self.wf(),
        ensures
            r@ == self@.bytes(),
    {
        let mut out: Vec<u8> = Vec::new();
        match self {
            Frame::Padding { len } => {
                let mut i: usize = 0;
                while i < *len
                    invariant
                        0 <= i <= *len,
                        out@ == zeros(i as int),
                    decreases *len - i,
                {
                    out.push(0);
                    i += 1;
                    assert(out@ =~= zeros(i as int));
                }
            },
            Frame::ConnectionClose { error_code, frame_type, reason } => {
                out.push(0x02);
                push_u16(&mut out, *error_code);
                push_varint(&mut out, *frame_type);
                push_sized(&mut out, reason.as_slice());
            },
            Frame::ApplicationClose { error_code, reason } => {
                out.push(0x03);
                push_u16(&mut out, *error_code);
                push_sized(&mut out, reason.as_slice());
            },
            Frame::MaxData { max } => {
                out.push(0x04);
                push_varint(&mut out, *max);
            },
            Frame::MaxStreamData { stream_id, max } => {
                out.push(0x05);
                push_varint(&mut out, *stream_id);
                push_varint(&mut out, *max);
            },
            Frame::MaxStreamId { max } => {
                out.push(0x06);
                push_varint(&mut out, *max);
            },
            Frame::Ping => {
                out.push(0x07);
            },
            Frame::NewConnectionId { seq_num, conn_id, reset_token } => {
                out.push(0x0b);
                push_varint(&mut out, *seq_num);
                out.push(conn_id.len() as u8);
                append(&mut out, conn_id.as_slice());
                append(&mut out, reset_token.as_slice());
            },
            Frame::ACK { ack_delay, ranges } => {
                push_ack(&mut out, *ack_delay, ranges);
            },
            Frame::NewToken { token } => {
                out.push(0x19);
                push_sized(&mut out, token.as_slice());
            },
            Frame::Crypto { data } => {
                out.push(0x18);
                push_varint(&mut out, data.off);
                push_sized(&mut out, data.data.as_slice());
            },
            Frame::Stream { stream_id, data } => {
                out.push(
                    if data.fin {
                        0x17
                    } else {
                        0x16
                    },
                );
                push_varint(&mut out, *stream_id);
                push_varint(&mut out, data.off);
                push_sized(&mut out, data.data.as_slice());
            },
        }
        assert(out@ =~= self@.bytes());
        out
    }

    /// The number of bytes that the frame takes on the wire.
    pub fn wire_len(&self) -> (r: u64)
        requires
            self.wf(),
        ensures
            r == self@.bytes().len(),
    {
        match self {
            Frame::Padding { len } => *len as u64,
            Frame::ConnectionClose { error_code, frame_type, reason } => 3 + varint_width(
                *frame_type,
            ) + sized_len(reason.as_slice()),
            Frame::ApplicationClose { error_code, reason } => 3 + sized_len(reason.as_slice()),
            Frame::MaxData { max } => 1 + varint_width(*max),
            Frame::MaxStreamData { stream_id, max } => 1 + varint_width(*stream_id) + varint_width(
                *max,
            ),
            Frame::MaxStreamId { max } => 1 + varint_width(*max),
            Frame::Ping => 1,
            Frame::NewConnectionId { seq_num, conn_id, reset_token } => 2 + varint_width(*seq_num)
                + conn_id.len() as u64 + reset_token.len() as u64,
            Frame::ACK { ack_delay, ranges } => {
                let e = self.encode();
                e.len() as u64
            },
            Frame::NewToken { token } => 1 + sized_len(token.as_slice()),
            Frame::Crypto { data } => 1 + varint_width(data.off) + sized_len(
                data.data.as_slice(),
            ),
            Frame::Stream { stream_id, data } => 1 + varint_width(*stream_id) + varint_width(
                data.off,
            ) + sized_len(data.data.as_slice()),
        }
    }

    /// Writes the frame at the cursor and moves the cursor behind it.
    /// Nothing is written where the frame does not fit.
    pub fn to_bytes(&self, b: &mut Bytes) -> (r: Result<usize, Error>)
        requires
            old(b).wf(),
            self.wf(),
        ensures
            final(b).wf(),
            final(b).wrote(
                old(b),
                self@.bytes(),
                match r {
                    Ok(_) => Ok(()),
                    Err(e) => Err(e),
                },
            ),
            r matches Ok(n) ==> n == self@.bytes().len(),
    {
        let e = self.encode();
        match b.put_bytes(e.as_slice()) {
            Ok(_) => Ok(e.len()),
            Err(x) => Err(x),
        }
    }
}

/// Reads the frames that fill `payload`, in their order.
pub fn parse_frames(payload: &[u8]) -> (r: Result<Vec<Frame>, Error>)
    ensures
        match frames_at(payload@, 0) {
            Ok(fs) => r matches Ok(v) && frame_views(v@) == fs && forall|i: int|
                0 <= i < v@.len() ==> (#[trigger] v@[i]).wf(),
            Err(e) => r matches Err(e2) && e2 == e,
        },
{
    let mut b = Bytes::from_slice(payload);
    let mut v: Vec<Frame> = Vec::new();
    proof {
        reveal_with_fuel(frames_at, 2);
    }
    assert(frame_views(v@) =~= Seq::<FrameView>::empty());
    assert(after(frame_views(v@), frames_at(payload@, 0)) == frames_at(payload@, 0)) by {
        match frames_at(payload@, 0) {
            Ok(x) => {
                assert(Seq::<FrameView>::empty() + x =~= x);
            },
            Err(_) => {},
        }
    }
    while b.off() < b.len()
        invariant
            b.wf(),
            b.data() == payload@,
            after(frame_views(v@), frames_at(payload@, b.pos())) == frames_at(payload@, 0),
            forall|i: int| 0 <= i < v@.len() ==> (#[trigger] v@[i]).wf(),
        decreases b.data().len() - b.pos(),
    {
        let ghost at = b.pos();
        let ghost before = frame_views(v@);
        proof {
            reveal_with_fuel(frames_at, 2);
        }
        let f = match Frame::from_bytes(&mut b) {
            Ok(f) => f,
            Err(e) => return Err(e),
        };
        v.push(f);
        proof {
            assert(frame_views(v@) =~= before.push(f@));
            match frames_at(payload@, b.pos()) {
                Ok(x) => {
                    assert(before + (seq![f@] + x) =~= before.push(f@) + x);
                },
                Err(_) => {},
            }
        }
    }
    proof {
        reveal_with_fuel(frames_at, 2);
        assert(frame_views(v@) + Seq::<FrameView>::empty() =~= frame_views(v@));
    }
    Ok(v)
}

} // verus!
