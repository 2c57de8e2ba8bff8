//! Byte streams: reassembly of what arrives, queueing of what is to be sent,
//! and the counters of flow control.

use vstd::prelude::*;
use crate::Error;
use crate::octets::{copy_range, append, MAX_VARINT};

verus! {

/// The greatest offset that a byte of a stream can end at.
pub const MAX_OFFSET: u64 = MAX_VARINT;

/// A run of bytes of a stream as a mathematical value.
pub struct Chunk {
    /// The bytes.
    pub data: Seq<u8>,
    /// The offset of the first byte in the stream.
    pub off: int,
    /// Whether the stream ends with the last byte.
    pub fin: bool,
}

impl Chunk {
    /// The offset just behind the last byte.
    pub open spec fn end(self) -> int {
        self.off + self.data.len()
    }

    /// What of the chunk lies below the offset `at`; meant for
    /// `off <= at <= end`.
    pub open spec fn below(self, at: int) -> Chunk {
        Chunk { data: self.data.take(at - self.off), off: self.off, fin: false }
    }

    /// What of the chunk lies at or above the offset `at`: nothing, at `at`,
    /// where the chunk ends before.
    pub open spec fn from(self, at: int) -> Chunk {
        if at <= self.off {
            self
        } else if at >= self.end() {
            Chunk { data: Seq::empty(), off: at, fin: self.fin }
        } else {
            Chunk { data: self.data.skip(at - self.off), off: at, fin: self.fin }
        }
    }

    /// The chunk without its mark of the stream's end.
    pub open spec fn plain(self) -> Chunk {
        Chunk { fin: false, ..self }
    }
}

/// A run of bytes of a stream, tagged with its offset.
#[derive(Debug, PartialEq, Eq)]
pub struct RangeBuf {
    pub data: Vec<u8>,
    pub off: u64,
    pub fin: bool,
}

impl View for RangeBuf {
    type V = Chunk;

    open spec fn view(&self) -> Chunk {
        Chunk { data: self.data@, off: self.off as int, fin: self.fin }
    }
}

impl Default for RangeBuf {
    fn default() -> (r: RangeBuf)
        ensures
            r@ == (Chunk { data: Seq::empty(), off: 0, fin: false }),
    {
        RangeBuf { data: Vec::new(), off: 0, fin: false }
    }
}

impl Clone for RangeBuf {
    fn clone(&self) -> (r: RangeBuf)
        ensures
            r@ == self@,
    {
        let data = copy_range(self.data.as_slice(), 0, self.data.len());
        assert(self.data@.subrange(0, self.data@.len() as int) =~= self.data@);
        RangeBuf { data, off: self.off, fin: self.fin }
    }
}

impl RangeBuf {
    /// The run ends at or below the greatest offset.
    pub open spec fn wf(&self) -> bool {
        self@.end() <= MAX_OFFSET
    }

    /// A copy of `buf` as the bytes of a stream from `off` on.
    pub fn from(buf: &[u8], off: u64, fin: bool) -> (r: RangeBuf)
        ensures
            r@ == (Chunk { data: buf@, off: off as int, fin }),
    {
        let data = copy_range(buf, 0, buf.len());
        assert(buf@.subrange(0, buf@.len() as int) =~= buf@);
        RangeBuf { data, off, fin }
    }

    /// The offset of the first byte.
    pub fn off(&self) -> (r: u64)
        ensures
            r == self@.off,
    {
        self.off
    }

    /// The number of bytes.
    pub fn len(&self) -> (r: usize)
        ensures
            r == self@.data.len(),
    {
        self.data.len()
    }

    /// Whether the stream ends with the last byte.
    pub fn fin(&self) -> (r: bool)
        ensures
            r == self@.fin,
    {
        self.fin
    }

    /// The offset just behind the last byte.
    pub fn max_off(&self) -> (r: u64)
        requires
            self.wf(),
        ensures
            r == self@.end(),
    {
        self.off + self.data.len() as u64
    }

    /// Cuts the run at the offset `at`: what lies below stays, what lies at
    /// or above is returned and keeps the mark of the stream's end.
    pub fn split_off(&mut self, at: u64) -> (r: RangeBuf)
        requires
            old(self)@.off <= at <= old(self)@.end(),
        ensures
            final(self)@ == old(self)@.below(at as int),
            r@ == (Chunk {
                data: old(self)@.data.skip(at - old(self)@.off),
                off: at as int,
                fin: old(self)@.fin,
            }),
    {
        let n: usize = self.data.len();
        assert(at - self.off <= n);
        let k: usize = (at - self.off) as usize;
        let tail = self.data.split_off(k);
        let r = RangeBuf { data: tail, off: at, fin: self.fin };
        self.fin = false;
        assert(self.data@ =~= old(self)@.data.take(at - old(self)@.off));
        assert(r.data@ =~= old(self)@.data.skip(at - old(self)@.off));
        r
    }
}

/// Whether `chunks` lie in ascending order between `lo` and `hi`, none
/// empty, none reaching into the next, none marked as the stream's end.
pub open spec fn ordered(chunks: Seq<Chunk>, lo: int, hi: int) -> bool
    decreases chunks.len(),
{
    if chunks.len() == 0 {
        true
    } else {
        &&& chunks[0].data.len() > 0
        &&& !chunks[0].fin
        &&& lo <= chunks[0].off
        &&& chunks[0].end() <= hi
        &&& ordered(chunks.skip(1), chunks[0].end(), hi)
    }
}

/// `chunks` with the bytes of `c` added where no byte stood before: of two
/// bytes at one offset the one that came first stays.
pub open spec fn merge(chunks: Seq<Chunk>, c: Chunk) -> Seq<Chunk>
    decreases chunks.len(),
{
    if c.data.len() == 0 {
        chunks
    } else if chunks.len() == 0 {
        seq![c.plain()]
    } else {
        let h = chunks[0];
        if c.end() <= h.off {
            seq![c.plain()] + chunks
        } else if h.end() <= c.off {
            seq![h] + merge(chunks.skip(1), c)
        } else if c.off < h.off {
            seq![c.below(h.off), h] + merge(chunks.skip(1), c.from(h.end()))
        } else {
            seq![h] + merge(chunks.skip(1), c.from(h.end()))
        }
    }
}

/// The number of chunks at the head of `chunks` that follow one another
/// without a gap, the first of them at `off`.
pub open spec fn run_len(chunks: Seq<Chunk>, off: int) -> int
    decreases chunks.len(),
{
    if chunks.len() > 0 && chunks[0].off == off {
        1 + run_len(chunks.skip(1), chunks[0].end())
    } else {
        0
    }
}

/// The bytes of the first `n` chunks, one after the other.
pub open spec fn flat(chunks: Seq<Chunk>, n: int) -> Seq<u8>
    decreases n,
{
    if n <= 0 || chunks.len() == 0 {
        Seq::empty()
    } else {
        chunks[0].data + flat(chunks.skip(1), n - 1)
    }
}

/// Chunks that lie in order within bounds lie in order within wider bounds.
pub proof fn lemma_ordered_widen(chunks: Seq<Chunk>, lo: int, hi: int, lo2: int, hi2: int)
    requires
        ordered(chunks, lo, hi),
        lo2 <= lo,
        hi <= hi2,
    ensures
        ordered(chunks, lo2, hi2),
    decreases chunks.len(),
{
    if chunks.len() > 0 {
        lemma_ordered_widen(chunks.skip(1), chunks[0].end(), hi, chunks[0].end(), hi2);
    }
}

/// Adding a chunk to chunks that lie in order leaves them in order, within
/// the same bounds where the new chunk respects them.
pub proof fn lemma_merge_ordered(chunks: Seq<Chunk>, c: Chunk, lo: int, hi: int)
    requires
        ordered(chunks, lo, hi),
        lo <= c.off,
        c.end() <= hi,
    ensures
        ordered(merge(chunks, c), lo, hi),
    decreases chunks.len(),
{
    let m = merge(chunks, c);
    if c.data.len() == 0 {
        assert(ordered(m, lo, hi));
    } else if chunks.len() == 0 {
        assert(m.skip(1) =~= Seq::<Chunk>::empty());
        assert(m[0] == c.plain());
        assert(ordered(m.skip(1), c.end(), hi));
        assert(ordered(m, lo, hi));
    } else {
        let h = chunks[0];
        let rest = chunks.skip(1);
        if c.end() <= h.off {
            assert(m.skip(1) =~= chunks);
            assert(ordered(chunks, c.end(), hi));
            assert(m[0] == c.plain());
            assert(ordered(m, lo, hi));
        } else if h.end() <= c.off {
            lemma_merge_ordered(rest, c, h.end(), hi);
            assert(m.skip(1) =~= merge(rest, c));
            assert(m[0] == h);
            assert(ordered(m, lo, hi));
        } else {
            let tail = c.from(h.end());
            lemma_merge_ordered(rest, tail, h.end(), hi);
            if c.off < h.off {
                assert(m.skip(1) =~= seq![h] + merge(rest, tail));
                assert(m.skip(1).skip(1) =~= merge(rest, tail));
                assert(m[0] == c.below(h.off));
                assert(m.skip(1)[0] == h);
                assert(ordered(m.skip(1), h.off, hi));
                assert(ordered(m, lo, hi));
            } else {
                assert(m.skip(1) =~= merge(rest, tail));
                assert(m[0] == h);
                assert(ordered(m, lo, hi));
            }
        }
    }
}

/// Adding the same chunk a second time changes nothing.
pub proof fn lemma_merge_idempotent(chunks: Seq<Chunk>, c: Chunk, lo: int, hi: int)
    requires
        ordered(chunks, lo, hi),
    ensures
        merge(merge(chunks, c), c) == merge(chunks, c),
    decreases chunks.len(),
{
    let m = merge(chunks, c);
    if c.data.len() == 0 {
    } else if chunks.len() == 0 {
        assert(m.skip(1) =~= Seq::<Chunk>::empty());
        assert(m[0] == c.plain());
        assert(c.from(c.end()).data.len() == 0);
        assert(merge(m.skip(1), c.from(c.end())) == m.skip(1));
        assert(merge(m, c) =~= m);
    } else {
        let h = chunks[0];
        let rest = chunks.skip(1);
        if c.end() <= h.off {
            assert(m.skip(1) =~= chunks);
            assert(m[0] == c.plain());
            assert(c.from(c.end()).data.len() == 0);
            assert(merge(m.skip(1), c.from(c.end())) == chunks);
            assert(merge(m, c) =~= m);
        } else if h.end() <= c.off {
            lemma_merge_idempotent(rest, c, h.end(), hi);
            assert(m.skip(1) =~= merge(rest, c));
            assert(merge(m, c) =~= m);
        } else {
            let tail = c.from(h.end());
            lemma_merge_idempotent(rest, tail, h.end(), hi);
            let mr = merge(rest, tail);
            if c.off < h.off {
                let b = c.below(h.off);
                assert(m.skip(1) =~= seq![h] + mr);
                assert(m.skip(1).skip(1) =~= mr);
                assert(c.from(b.end()) == c.from(h.off));
                let c2 = c.from(h.off);
                assert(c2.from(h.end()) == tail) by {
                    assert(c2.from(h.end()).data =~= tail.data);
                }
                assert(merge(m.skip(1), c2) =~= seq![h] + merge(mr, tail));
                assert(merge(m, c) =~= seq![b] + merge(m.skip(1), c2));
                assert(merge(m, c) =~= m);
            } else {
                assert(m.skip(1) =~= mr);
                assert(merge(m, c) =~= m);
            }
        }
    }
}


/// The chunks that a list of buffers holds.
pub open spec fn views(v: Seq<RangeBuf>) -> Seq<Chunk> {
    Seq::new(v.len(), |i: int| v[i]@)
}

/// Whether `chunks` stand in ascending order below `end`, as bytes queued
/// one write after the other do.
pub open spec fn queued(chunks: Seq<Chunk>, end: int) -> bool {
    &&& forall|i: int| 0 <= i < chunks.len()
        ==> 0 <= (#[trigger] chunks[i]).off && chunks[i].end() <= end
    &&& forall|i: int, j: int|
        0 <= i < j < chunks.len() ==> (#[trigger] chunks[i]).end() <= (#[trigger] chunks[j]).off
}

/// A stream as a mathematical value.
pub struct StreamState {
    /// What arrived and was not read yet, in ascending order.
    pub recv: Seq<Chunk>,
    /// The offset up to which the stream was read.
    pub recv_off: int,
    /// The offset at which the stream ends, once the peer has said so.
    pub fin_off: Option<int>,
    /// What was written and not sent yet, the oldest first.
    pub send: Seq<Chunk>,
    /// The offset that the next byte written gets.
    pub send_off: int,
    /// The greatest offset that arrived.
    pub rx_data: int,
    /// The greatest offset that the peer may send.
    pub max_rx_data: int,
    /// The number of bytes sent.
    pub tx_data: int,
    /// The greatest number of bytes that may be sent.
    pub max_tx_data: int,
    /// The amount by which the peer's limit is raised at a time.
    pub window: int,
}

impl StreamState {
    /// The counters respect their limits and the queues are in order.
    #[verifier::opaque]
    pub open spec fn wf(self) -> bool {
        &&& 0 <= self.recv_off <= self.rx_data <= self.max_rx_data <= MAX_OFFSET
        &&& ordered(self.recv, self.recv_off, self.rx_data)
        &&& match self.fin_off {
            Some(f) => 0 <= f <= self.rx_data,
            None => true,
        }
        &&& 0 <= self.send_off <= MAX_OFFSET
        &&& queued(self.send, self.send_off)
        &&& 0 <= self.tx_data <= self.max_tx_data <= MAX_OFFSET
        &&& 0 <= self.window <= MAX_OFFSET
    }

    /// Whether bytes stand ready at the offset up to which the stream was
    /// read.
    pub open spec fn can_read(self) -> bool {
        self.recv.len() > 0 && self.recv[0].off == self.recv_off
    }

    /// Whether bytes wait to be sent.
    pub open spec fn can_write(self) -> bool {
        self.send.len() > 0
    }

    /// Whether more than half of the window below the peer's limit was read.
    pub open spec fn more_credit(self) -> bool {
        2 * (self.recv_off - (self.max_rx_data - self.window)) > self.window
    }

    /// The peer's limit after it was raised by the window, as far as offsets
    /// reach.
    pub open spec fn raised_limit(self) -> int {
        if self.max_rx_data + self.window <= MAX_OFFSET {
            self.max_rx_data + self.window
        } else {
            MAX_OFFSET as int
        }
    }

    /// What the next packet can take of the stream when it has room for
    /// `max_len` bytes: the oldest chunk, or its first `max_len` bytes.
    pub open spec fn head(self, max_len: int) -> Chunk {
        if self.send.len() == 0 {
            Chunk { data: Seq::empty(), off: self.send_off, fin: false }
        } else if self.send[0].data.len() <= max_len {
            self.send[0]
        } else {
            self.send[0].below(self.send[0].off + max_len)
        }
    }

    /// What waits to be sent once `head(max_len)` was taken.
    pub open spec fn behind_head(self, max_len: int) -> Seq<Chunk> {
        if self.send.len() == 0 {
            self.send
        } else if self.send[0].data.len() <= max_len {
            self.send.skip(1)
        } else {
            self.send.update(
                0,
                Chunk {
                    data: self.send[0].data.skip(max_len),
                    off: self.send[0].off + max_len,
                    fin: self.send[0].fin,
                },
            )
        }
    }

    /// The stream after `c` arrived, where the limit admits it.
    #[verifier::opaque]
    pub open spec fn received(self, c: Chunk) -> StreamState {
        StreamState {
            recv: merge(self.recv, c.plain().from(self.recv_off)),
            rx_data: if c.end() > self.rx_data {
                c.end()
            } else {
                self.rx_data
            },
            fin_off: if self.fin_off.is_none() && c.fin {
                Some(c.end())
            } else {
                self.fin_off
            },
            ..self
        }
    }
}

/// A stream: what arrived in it, what is to be sent in it, and its counters.
#[derive(Debug)]
pub struct Stream {
    recv: Vec<RangeBuf>,
    recv_off: u64,
    fin_off: Option<u64>,
    send: Vec<RangeBuf>,
    send_off: u64,
    rx_data: u64,
    max_rx_data: u64,
    tx_data: u64,
    max_tx_data: u64,
    window: u64,
}

impl View for Stream {
    type V = StreamState;

    closed spec fn view(&self) -> StreamState {
        StreamState {
            recv: views(self.recv@),
            recv_off: self.recv_off as int,
            fin_off: match self.fin_off {
                Some(f) => Some(f as int),
                None => None,
            },
            send: views(self.send@),
            send_off: self.send_off as int,
            rx_data: self.rx_data as int,
            max_rx_data: self.max_rx_data as int,
            tx_data: self.tx_data as int,
            max_tx_data: self.max_tx_data as int,
            window: self.window as int,
        }
    }
}

/// The lesser of `v` and the greatest offset.
pub open spec fn clamp(v: u64) -> int {
    if v <= MAX_OFFSET {
        v as int
    } else {
        MAX_OFFSET as int
    }
}

/// A new stream with the given limits.
pub open spec fn new_stream(max_rx_data: u64, max_tx_data: u64) -> StreamState {
    StreamState {
        recv: Seq::empty(),
        recv_off: 0,
        fin_off: None,
        send: Seq::empty(),
        send_off: 0,
        rx_data: 0,
        max_rx_data: clamp(max_rx_data),
        tx_data: 0,
        max_tx_data: clamp(max_tx_data),
        window: clamp(max_rx_data),
    }
}

impl Stream {
    /// See `StreamState::wf`.
    pub open spec fn wf(&self) -> bool {
        self@.wf()
    }

    /// A stream on which nothing arrived and nothing was written. The peer
    /// may send up to the offset `max_rx_data`, which is also the window by
    /// which that limit is raised later; up to `max_tx_data` bytes may be
    /// sent. Limits above the greatest offset count as that offset.
    pub fn new(max_rx_data: u64, max_tx_data: u64) -> (s: Stream)
        ensures
            s.wf(),
            s@ == new_stream(max_rx_data, max_tx_data),
    {
        proof {
            reveal(StreamState::wf);
        }
        let rx: u64 = if max_rx_data <= MAX_OFFSET {
            max_rx_data
        } else {
            MAX_OFFSET
        };
        let tx: u64 = if max_tx_data <= MAX_OFFSET {
            max_tx_data
        } else {
            MAX_OFFSET
        };
        let s = Stream {
            recv: Vec::new(),
            recv_off: 0,
            fin_off: None,
            send: Vec::new(),
            send_off: 0,
            rx_data: 0,
            max_rx_data: rx,
            tx_data: 0,
            max_tx_data: tx,
            window: rx,
        };
        assert(s@.recv =~= Seq::<Chunk>::empty());
        assert(s@.send =~= Seq::<Chunk>::empty());
        s
    }

    /// The greatest offset that arrived.
    pub fn rx_data(&self) -> (r: u64)
        ensures
            r == self@.rx_data,
    {
        self.rx_data
    }

    /// The greatest offset that the peer may send.
    pub fn max_rx_data(&self) -> (r: u64)
        ensures
            r == self@.max_rx_data,
    {
        self.max_rx_data
    }

    /// The number of bytes sent.
    pub fn tx_data(&self) -> (r: u64)
        ensures
            r == self@.tx_data,
    {
        self.tx_data
    }

    /// The greatest number of bytes that may be sent.
    pub fn max_tx_data(&self) -> (r: u64)
        ensures
            r == self@.max_tx_data,
    {
        self.max_tx_data
    }

    /// Whether bytes stand ready to be read.
    pub fn can_read(&self) -> (r: bool)
        ensures
            r == self@.can_read(),
    {
        self.recv.len() > 0 && self.recv[0].off == self.recv_off
    }

    /// Whether bytes wait to be sent.
    pub fn can_write(&self) -> (r: bool)
        ensures
            r == self@.can_write(),
    {
        self.send.len() > 0
    }

    /// Whether the stream was read up to its end.
    pub fn is_fin(&self) -> (r: bool)
        ensures
            r == (self@.fin_off == Some(self@.recv_off)),
    {
        match self.fin_off {
            Some(f) => f == self.recv_off,
            None => false,
        }
    }

    /// Whether the peer's limit should be raised: more than half of the
    /// window below it was read.
    pub fn more_credit(&self) -> (r: bool)
        requires
            self.wf(),
        ensures
            r == self@.more_credit(),
    {
        proof {
            reveal(StreamState::wf);
        }
        let left: u64 = self.max_rx_data - self.recv_off;
        if left >= self.window {
            false
        } else {
            let used: u64 = self.window - left;
            used > self.window - used
        }
    }

    /// Raises the peer's limit by the window and returns the new limit.
    pub fn raise_credit(&mut self) -> (r: u64)
        requires
            old(self).wf(),
        ensures
            final(self).wf(),
            r == old(self)@.raised_limit(),
            final(self)@ == (StreamState { max_rx_data: r as int, ..old(self)@ }),
    {
        proof {
            reveal(StreamState::wf);
        }
        let room: u64 = MAX_OFFSET - self.max_rx_data;
        if self.window <= room {
            self.max_rx_data = self.max_rx_data + self.window;
        } else {
            self.max_rx_data = MAX_OFFSET;
        }
        proof {
            lemma_ordered_widen(
                self@.recv,
                self@.recv_off,
                self@.rx_data,
                self@.recv_off,
                self@.rx_data,
            );
        }
        self.max_rx_data
    }

    /// Takes note that the peer allows `max` bytes to be sent; a limit never
    /// goes down.
    pub fn raise_max_tx(&mut self, max: u64)
        requires
            old(self).wf(),
        ensures
            final(self).wf(),
            final(self)@ == (StreamState {
                max_tx_data: if clamp(max) > old(self)@.max_tx_data {
                    clamp(max)
                } else {
                    old(self)@.max_tx_data
                },
                ..old(self)@
            }),
    {
        proof {
            reveal(StreamState::wf);
        }
        let m: u64 = if max <= MAX_OFFSET {
            max
        } else {
            MAX_OFFSET
        };
        if m > self.max_tx_data {
            self.max_tx_data = m;
        }
    }

    /// Counts `n` more bytes as sent.
    pub fn add_tx(&mut self, n: u64)
        requires
            old(self).wf(),
            old(self)@.tx_data + n <= old(self)@.max_tx_data,
        ensures
            final(self).wf(),
            final(self)@ == (StreamState { tx_data: old(self)@.tx_data + n, ..old(self)@ }),
    {
        proof {
            reveal(StreamState::wf);
        }
        self.tx_data = self.tx_data + n;
    }

    /// Queues `data` for sending at the end of what was written so far, and
    /// with `fin` marks it as the stream's last. Nothing is queued for an
    /// empty write that does not end the stream. A write that would reach
    /// past the greatest offset is refused.
    pub fn push_send(&mut self, data: &[u8], fin: bool) -> (r: Result<usize, Error>)
        requires
            old(self).wf(),
        ensures
            final(self).wf(),
            match r {
                Ok(n) => {
                    &&& n == data@.len()
                    &&& old(self)@.send_off + data@.len() <= MAX_OFFSET
                    &&& final(self)@ == (StreamState {
                        send: if data@.len() == 0 && !fin {
                            old(self)@.send
                        } else {
                            old(self)@.send.push(
                                Chunk { data: data@, off: old(self)@.send_off, fin },
                            )
                        },
                        send_off: old(self)@.send_off + data@.len(),
                        ..old(self)@
                    })
                },
                Err(e) => {
                    &&& e == Error::FlowControl
                    &&& old(self)@.send_off + data@.len() > MAX_OFFSET
                    &&& final(self)@ == old(self)@
                },
            },
    {
        proof {
            reveal(StreamState::wf);
        }
        let room: u64 = MAX_OFFSET - self.send_off;
        if data.len() as u64 > room {
            return Err(Error::FlowControl);
        }
        if data.len() == 0 && !fin {
            return Ok(0);
        }
        let buf = RangeBuf::from(data, self.send_off, fin);
        let ghost before = self.send@;
        self.send.push(buf);
        self.send_off = self.send_off + data.len() as u64;
        proof {
            assert(views(self.send@) =~= views(before).push(buf@));
        }
        Ok(data.len())
    }
}


/// A run has no negative length.
pub proof fn lemma_run_len_nonnegative(chunks: Seq<Chunk>, off: int)
    ensures
        0 <= run_len(chunks, off) <= chunks.len(),
    decreases chunks.len(),
{
    if chunks.len() > 0 && chunks[0].off == off {
        lemma_run_len_nonnegative(chunks.skip(1), chunks[0].end());
    }
}

/// Every chunk of an ordered list lies within the list's bounds and holds a
/// byte.
pub proof fn lemma_ordered_index(chunks: Seq<Chunk>, lo: int, hi: int, i: int)
    requires
        ordered(chunks, lo, hi),
        0 <= i < chunks.len(),
    ensures
        lo <= chunks[i].off,
        chunks[i].end() <= hi,
        chunks[i].data.len() > 0,
        !chunks[i].fin,
    decreases i,
{
    if i > 0 {
        lemma_ordered_index(chunks.skip(1), chunks[0].end(), hi, i - 1);
    }
}

/// A chunk that ends before the `i`-th chunk begins, and begins behind all
/// chunks before it, goes in just before the `i`-th.
proof fn lemma_merge_before(s: Seq<Chunk>, i: int, c: Chunk)
    requires
        0 <= i < s.len(),
        c.data.len() > 0,
        c.end() <= s[i].off,
    ensures
        s.take(i) + merge(s.skip(i), c) == s.insert(i, c.plain()),
{
    assert(s.skip(i)[0] == s[i]);
    assert(s.take(i) + (seq![c.plain()] + s.skip(i)) =~= s.insert(i, c.plain()));
}

/// A chunk that begins behind the `i`-th chunk goes in behind it.
proof fn lemma_merge_behind(s: Seq<Chunk>, i: int, c: Chunk)
    requires
        0 <= i < s.len(),
        c.data.len() > 0,
        s[i].end() <= c.off,
    ensures
        s.take(i) + merge(s.skip(i), c) == s.take(i + 1) + merge(s.skip(i + 1), c),
{
    assert(s.skip(i)[0] == s[i]);
    assert(s.skip(i).skip(1) =~= s.skip(i + 1));
    assert(s.take(i) + (seq![s[i]] + merge(s.skip(i + 1), c)) =~= s.take(i + 1) + merge(
        s.skip(i + 1),
        c,
    ));
}

/// Of a chunk that reaches into the `i`-th chunk, what lies below goes in
/// before it, and what lies above goes in behind it.
proof fn lemma_merge_across(s: Seq<Chunk>, i: int, c: Chunk)
    requires
        0 <= i < s.len(),
        c.data.len() > 0,
        !c.fin,
        s[i].off < c.end(),
        c.off < s[i].end(),
    ensures
        c.off < s[i].off ==> s.take(i) + merge(s.skip(i), c) == s.insert(
            i,
            c.below(s[i].off),
        ).take(i + 2) + merge(s.insert(i, c.below(s[i].off)).skip(i + 2), c.from(s[i].end())),
        c.off >= s[i].off ==> s.take(i) + merge(s.skip(i), c) == s.take(i + 1) + merge(
            s.skip(i + 1),
            c.from(s[i].end()),
        ),
{
    let h = s[i];
    let tail = c.from(h.end());
    assert(s.skip(i)[0] == h);
    assert(s.skip(i).skip(1) =~= s.skip(i + 1));
    if c.off < h.off {
        let t = s.insert(i, c.below(h.off));
        assert(t.skip(i + 2) =~= s.skip(i + 1));
        assert(s.take(i) + (seq![c.below(h.off), h] + merge(s.skip(i + 1), tail)) =~= t.take(i + 2)
            + merge(s.skip(i + 1), tail));
    } else {
        assert(s.take(i) + (seq![h] + merge(s.skip(i + 1), tail)) =~= s.take(i + 1) + merge(
            s.skip(i + 1),
            tail,
        ));
    }
}

/// A chunk goes in at the end of chunks that all lie below it.
proof fn lemma_merge_end(s: Seq<Chunk>, c: Chunk)
    ensures
        s.take(s.len() as int) + merge(s.skip(s.len() as int), c) == if c.data.len() == 0 {
            s
        } else {
            s.push(c.plain())
        },
{
    assert(s.skip(s.len() as int) =~= Seq::<Chunk>::empty());
    assert(s.take(s.len() as int) =~= s);
    if c.data.len() == 0 {
        assert(s + Seq::<Chunk>::empty() =~= s);
    } else {
        assert(s + seq![c.plain()] =~= s.push(c.plain()));
    }
}

/// Nothing goes in where the chunk is empty.
proof fn lemma_merge_nothing(s: Seq<Chunk>, i: int, c: Chunk)
    requires
        0 <= i <= s.len(),
        c.data.len() == 0,
    ensures
        s.take(i) + merge(s.skip(i), c) == s,
{
    assert(s.take(i) + s.skip(i) =~= s);
}

/// Adds the bytes of `cur` to the chunks in `recv` where no byte stood
/// before.
fn insert_chunk(recv: &mut Vec<RangeBuf>, buf: RangeBuf)
    requires
        !buf@.fin,
        buf@.end() <= MAX_OFFSET,
        forall|j: int| 0 <= j < old(recv)@.len()
            ==> (#[trigger] old(recv)@[j])@.end() <= MAX_OFFSET,
    ensures
        views(final(recv)@) == merge(views(old(recv)@), buf@),
{
    let ghost target = merge(views(recv@), buf@);
    let mut cur = buf;
    let mut i: usize = 0;
    proof {
        let v = views(recv@);
        assert(v.skip(0) =~= v);
        assert(v.take(0) + merge(v, cur@) =~= merge(v, cur@));
    }
    while i < recv.len() && cur.data.len() > 0
        invariant
            0 <= i <= recv@.len(),
            !cur@.fin,
            cur@.end() <= MAX_OFFSET,
            forall|j: int| 0 <= j < recv@.len() ==> (#[trigger] recv@[j])@.end() <= MAX_OFFSET,
            views(recv@).take(i as int) + merge(views(recv@).skip(i as int), cur@) == target,
            target == merge(views(old(recv)@), buf@),
        decreases recv@.len() - i, cur@.data.len(),
    {
        let ghost s = views(recv@);
        let ghost c = cur@;
        assert(s[i as int] == recv@[i as int]@);
        assert(c.plain() == c);
        let n: usize = recv.len();
        let h_off: u64 = recv[i].off;
        let h_end: u64 = recv[i].max_off();
        let cur_end: u64 = cur.max_off();
        if cur_end <= h_off {
            proof {
                lemma_merge_before(s, i as int, c);
            }
            recv.insert(i, cur);
            assert(views(recv@) =~= s.insert(i as int, c));
            return ;
        }
        if h_end <= cur.off {
            proof {
                lemma_merge_behind(s, i as int, c);
            }
            i += 1;
            continue ;
        }
        proof {
            lemma_merge_across(s, i as int, c);
        }
        if cur.off < h_off {
            let mut low = cur;
            cur = low.split_off(h_off);
            recv.insert(i, low);
            assert(views(recv@) =~= s.insert(i as int, c.below(h_off as int)));
            let m: usize = recv.len();
            assert(i < n < m);
            i += 1;
        }
        if cur_end <= h_end {
            proof {
                lemma_merge_nothing(views(recv@), i + 1, c.from(h_end as int));
            }
            return ;
        }
        cur = cur.split_off(h_end);
        assert(cur@.data =~= c.from(h_end as int).data);
        i += 1;
    }
    proof {
        if cur@.data.len() == 0 {
            lemma_merge_nothing(views(recv@), i as int, cur@);
        } else {
            lemma_merge_end(views(recv@), cur@);
        }
    }
    if cur.data.len() > 0 {
        let ghost s = views(recv@);
        recv.push(cur);
        assert(views(recv@) =~= s.push(cur@));
    }
}

impl Stream {
    /// Takes in a chunk that arrived. One that ends above the peer's limit
    /// is refused and changes nothing. Else its bytes go in where none
    /// stood before, apart from those below the offset up to which the
    /// stream was read; the first chunk that marks the stream's end fixes the
    /// end.
    pub fn push_recv(&mut self, buf: RangeBuf) -> (r: Result<(), Error>)
        requires
            old(self).wf(),
        ensures
            final(self).wf(),
            final(self)@.window == old(self)@.window,
            final(self)@.max_rx_data == old(self)@.max_rx_data,
            match r {
                Ok(_) => buf@.end() <= old(self)@.max_rx_data && final(self)@ == old(
                    self,
                )@.received(buf@),
                Err(e) => e == Error::FlowControl && buf@.end() > old(self)@.max_rx_data
                    && final(self)@ == old(self)@,
            },
    {
        proof {
            reveal(StreamState::wf);
            reveal(StreamState::received);
        }
        if buf.off > self.max_rx_data || buf.data.len() as u64 > self.max_rx_data - buf.off {
            return Err(Error::FlowControl);
        }
        let end: u64 = buf.off + buf.data.len() as u64;
        let ghost c0 = buf@.plain().from(self@.recv_off);
        let ghost target = merge(self@.recv, c0);
        if self.fin_off.is_none() && buf.fin {
            self.fin_off = Some(end);
        }
        if end > self.rx_data {
            self.rx_data = end;
        }
        proof {
            lemma_ordered_widen(
                old(self)@.recv,
                old(self)@.recv_off,
                old(self)@.rx_data,
                old(self)@.recv_off,
                self.rx_data as int,
            );
            lemma_merge_ordered(
                old(self)@.recv,
                c0,
                old(self)@.recv_off,
                self.rx_data as int,
            );
        }
        let mut cur = buf;
        cur.fin = false;
        if cur.off < self.recv_off {
            if end <= self.recv_off {
                cur = RangeBuf { data: Vec::new(), off: self.recv_off, fin: false };
            } else {
                cur = cur.split_off(self.recv_off);
            }
        }
        assert(cur@.data =~= c0.data);
        assert(cur@ == c0);
        proof {
            let v = views(self.recv@);
            assert forall|j: int| 0 <= j < self.recv@.len() implies (
            #[trigger] self.recv@[j])@.end() <= MAX_OFFSET by {
                assert(v[j] == self.recv@[j]@);
                lemma_ordered_index(v, old(self)@.recv_off, old(self)@.rx_data, j);
            }
        }
        insert_chunk(&mut self.recv, cur);
        Ok(())
    }

    /// Takes out the bytes that stand ready at the offset up to which the
    /// stream was read, as far as they follow one another without a gap, and
    /// moves that offset behind them. The result is marked as the stream's
    /// end where the stream ends there.
    #[verifier::loop_isolation(false)]
    pub fn pop_recv(&mut self) -> (r: RangeBuf)
        requires
            old(self).wf(),
        ensures
            final(self).wf(),
            ({
                let n = run_len(old(self)@.recv, old(self)@.recv_off);
                &&& r@.data == flat(old(self)@.recv, n)
                &&& r@.off == old(self)@.recv_off
                &&& r@.fin == (old(self)@.fin_off == Some(final(self)@.recv_off))
                &&& final(self)@ == (StreamState {
                    recv: old(self)@.recv.skip(n),
                    recv_off: old(self)@.recv_off + r@.data.len(),
                    ..old(self)@
                })
            }),
    {
        proof {
            reveal(StreamState::wf);
        }
        let ghost n0 = run_len(self@.recv, self@.recv_off);
        let ghost all = self@.recv;
        let ghost k: int = 0;
        let mut data: Vec<u8> = Vec::new();
        let off: u64 = self.recv_off;
        assert(all.skip(0) =~= all);
        while self.recv.len() > 0 && self.recv[0].off == self.recv_off
            invariant
                0 <= k <= all.len(),
                views(self.recv@) == all.skip(k),
                n0 == k + run_len(views(self.recv@), self.recv_off as int),
                flat(all, n0) == data@ + flat(views(self.recv@), n0 - k),
                self.recv_off == off + data@.len(),
                ordered(views(self.recv@), self.recv_off as int, self.rx_data as int),
                self.recv_off <= self.rx_data,
                self.fin_off == old(self).fin_off,
                self.send == old(self).send,
                self.send_off == old(self).send_off,
                self.rx_data == old(self).rx_data,
                self.max_rx_data == old(self).max_rx_data,
                self.tx_data == old(self).tx_data,
                self.max_tx_data == old(self).max_tx_data,
                self.window == old(self).window,
                all == old(self)@.recv,
            decreases self.recv@.len(),
        {
            let ghost cur = views(self.recv@);
            let ghost before = data@;
            assert(cur[0] == self.recv@[0]@);
            assert(run_len(cur, self.recv_off as int) == 1 + run_len(cur.skip(1), cur[0].end()));
            proof {
                lemma_run_len_nonnegative(cur.skip(1), cur[0].end());
            }
            let b = self.recv.remove(0);
            assert(views(self.recv@) =~= cur.skip(1));
            assert(cur.skip(1) =~= all.skip(k + 1));
            self.recv_off = b.off + b.data.len() as u64;
            append(&mut data, b.data.as_slice());
            proof {
                assert(flat(cur, n0 - k) == cur[0].data + flat(cur.skip(1), n0 - k - 1));
                assert(data@ + flat(cur.skip(1), n0 - k - 1) =~= before + flat(cur, n0 - k));
                k = k + 1;
            }
        }
        let fin: bool = match self.fin_off {
            Some(f) => f == self.recv_off,
            None => false,
        };
        assert(data@ + Seq::<u8>::empty() =~= data@);
        RangeBuf { data, off, fin }
    }

    /// A copy of what the next packet can take of the stream when it has
    /// room for `max_len` bytes.
    pub fn peek_send(&self, max_len: usize) -> (r: RangeBuf)
        requires
            self.wf(),
        ensures
            r@ == self@.head(max_len as int),
            r.wf(),
    {
        proof {
            reveal(StreamState::wf);
        }
        if self.send.len() == 0 {
            return RangeBuf { data: Vec::new(), off: self.send_off, fin: false };
        }
        assert(self@.send[0] == self.send@[0]@);
        let h = &self.send[0];
        if h.data.len() <= max_len {
            h.clone()
        } else {
            let data = copy_range(h.data.as_slice(), 0, max_len);
            assert(data@ =~= h.data@.take(max_len as int));
            RangeBuf { data, off: h.off, fin: false }
        }
    }

    /// Takes out what the next packet can take of the stream when it has
    /// room for `max_len` bytes: the oldest chunk, or its first `max_len`
    /// bytes, the rest of which stays at the head of the queue.
    pub fn pop_send(&mut self, max_len: usize) -> (r: RangeBuf)
        requires
            old(self).wf(),
        ensures
            final(self).wf(),
            r@ == old(self)@.head(max_len as int),
            r.wf(),
            final(self)@ == (StreamState {
                send: old(self)@.behind_head(max_len as int),
                ..old(self)@
            }),
    {
        proof {
            reveal(StreamState::wf);
        }
        if self.send.len() == 0 {
            return RangeBuf { data: Vec::new(), off: self.send_off, fin: false };
        }
        let ghost s = views(self.send@);
        assert(s[0] == self.send@[0]@);
        let mut h = self.send.remove(0);
        assert(views(self.send@) =~= s.skip(1));
        if h.data.len() <= max_len {
            assert forall|i: int, j: int| 0 <= i < j < s.skip(1).len() implies (
            #[trigger] s.skip(1)[i]).end() <= (#[trigger] s.skip(1)[j]).off by {
                assert(s[i + 1].end() <= s[j + 1].off);
            }
            return h;
        }
        let rest = h.split_off(h.off + max_len as u64);
        let ghost t = views(self.send@);
        self.send.insert(0, rest);
        proof {
            let u = views(self.send@);
            assert(u =~= s.update(0, rest@));
            assert forall|i: int, j: int| 0 <= i < j < u.len() implies (#[trigger] u[i]).end() <= (
            #[trigger] u[j]).off by {
                assert(s[i].end() <= s[j].off);
            }
        }
        h
    }
}


/// What the order of a stream says of its counters and of the chunks
/// that wait to be sent.
pub proof fn lemma_stream_bounds(s: StreamState)
    requires
        s.wf(),
    ensures
        0 <= s.recv_off <= s.rx_data <= s.max_rx_data <= MAX_OFFSET,
        0 <= s.tx_data <= s.max_tx_data <= MAX_OFFSET,
        0 <= s.send_off <= MAX_OFFSET,
        0 <= s.window <= MAX_OFFSET,
        forall|i: int|
            0 <= i < s.send.len() ==> 0 <= (#[trigger] s.send[i]).off && s.send[i].end()
                <= MAX_OFFSET,
{
    reveal(StreamState::wf);
}

/// A new stream is in order.
pub proof fn lemma_new_stream_wf(max_rx_data: u64, max_tx_data: u64)
    ensures
        new_stream(max_rx_data, max_tx_data).wf(),
{
    reveal(StreamState::wf);
}


/// The byte that `c` holds for the offset `o`, if it holds one.
pub open spec fn chunk_byte(c: Chunk, o: int) -> Option<u8> {
    if c.off <= o < c.end() {
        Some(c.data[o - c.off])
    } else {
        None
    }
}

/// The byte that `chunks` hold for the offset `o`, if they hold one.
pub open spec fn byte_at(chunks: Seq<Chunk>, o: int) -> Option<u8>
    decreases chunks.len(),
{
    if chunks.len() == 0 {
        None
    } else if chunks[0].off <= o < chunks[0].end() {
        Some(chunks[0].data[o - chunks[0].off])
    } else {
        byte_at(chunks.skip(1), o)
    }
}

/// Ordered chunks hold no byte below their lower bound.
pub proof fn lemma_no_byte_below(chunks: Seq<Chunk>, lo: int, hi: int, o: int)
    requires
        ordered(chunks, lo, hi),
        o < lo,
    ensures
        byte_at(chunks, o).is_none(),
    decreases chunks.len(),
{
    if chunks.len() > 0 {
        lemma_no_byte_below(chunks.skip(1), chunks[0].end(), hi, o);
    }
}

/// The first writer wins, byte by byte: after a chunk was added, every
/// offset that held a byte holds that byte still, and every other offset
/// holds the byte that the chunk has for it, if it has one.
pub proof fn lemma_merge_bytes(chunks: Seq<Chunk>, c: Chunk, lo: int, hi: int, o: int)
    requires
        ordered(chunks, lo, hi),
    ensures
        byte_at(merge(chunks, c), o) == match byte_at(chunks, o) {
            Some(b) => Some(b),
            None => chunk_byte(c, o),
        },
    decreases chunks.len(),
{
    let m = merge(chunks, c);
    if c.data.len() == 0 {
    } else if chunks.len() == 0 {
        assert(m.skip(1) =~= Seq::<Chunk>::empty());
        assert(m[0] == c.plain());
        assert(byte_at(m.skip(1), o).is_none());
    } else {
        let h = chunks[0];
        let rest = chunks.skip(1);
        if c.end() <= h.off {
            assert(m.skip(1) =~= chunks);
            assert(m[0] == c.plain());
            if o < c.end() {
                lemma_no_byte_below(chunks, h.off, hi, o);
            }
        } else if h.end() <= c.off {
            lemma_merge_bytes(rest, c, h.end(), hi, o);
            assert(m.skip(1) =~= merge(rest, c));
            assert(m[0] == h);
        } else {
            let tail = c.from(h.end());
            lemma_merge_bytes(rest, tail, h.end(), hi, o);
            if o < h.end() {
                lemma_no_byte_below(rest, h.end(), hi, o);
            }
            if c.off < h.off {
                assert(m.skip(1) =~= seq![h] + merge(rest, tail));
                assert(m.skip(1).skip(1) =~= merge(rest, tail));
                assert(m[0] == c.below(h.off));
                assert(m.skip(1)[0] == h);
                assert(byte_at(m, o) == if c.off <= o < h.off {
                    Some(c.data[o - c.off])
                } else {
                    byte_at(m.skip(1), o)
                });
                assert(byte_at(m.skip(1), o) == if h.off <= o < h.end() {
                    Some(h.data[o - h.off])
                } else {
                    byte_at(merge(rest, tail), o)
                });
            } else {
                assert(m.skip(1) =~= merge(rest, tail));
                assert(m[0] == h);
            }
        }
    }
}

/// What is read is what stands there: the bytes of the chunks that follow
/// one another from `off` on are the bytes that the chunks hold for the
/// offsets from `off` on, one after the other, up to the first offset for
/// which they hold none.
pub proof fn lemma_flat_bytes(chunks: Seq<Chunk>, off: int, hi: int, k: int)
    requires
        ordered(chunks, off, hi),
        0 <= k <= flat(chunks, run_len(chunks, off)).len(),
    ensures
        k < flat(chunks, run_len(chunks, off)).len() ==> byte_at(chunks, off + k) == Some(
            flat(chunks, run_len(chunks, off))[k],
        ),
        k == flat(chunks, run_len(chunks, off)).len() ==> byte_at(chunks, off + k).is_none(),
    decreases chunks.len(),
{
    let n = run_len(chunks, off);
    let d = flat(chunks, n);
    if chunks.len() > 0 && chunks[0].off == off {
        let h = chunks[0];
        let rest = chunks.skip(1);
        lemma_run_len_nonnegative(rest, h.end());
        assert(n == 1 + run_len(rest, h.end()));
        assert(d == h.data + flat(rest, n - 1));
        if k < h.data.len() {
        } else {
            lemma_flat_bytes(rest, h.end(), hi, k - h.data.len());
        }
    } else {
        assert(n == 0);
        assert(d =~= Seq::<u8>::empty());
        if chunks.len() > 0 {
            lemma_no_byte_below(chunks, chunks[0].off, hi, off);
        }
    }
}

impl StreamState {
    /// The byte that waits to be read at the offset `o`, if one arrived for
    /// it.
    pub open spec fn byte(self, o: int) -> Option<u8> {
        byte_at(self.recv, o)
    }
}

/// What a chunk that arrived changes, byte by byte: nothing below the
/// offset up to which the stream was read, and nothing where a byte
/// arrived before; elsewhere the chunk's bytes are the stream's bytes from
/// then on.
pub proof fn lemma_received_bytes(s: StreamState, c: Chunk, o: int)
    requires
        s.wf(),
        0 <= c.off,
    ensures
        s.received(c).byte(o) == match s.byte(o) {
            Some(b) => Some(b),
            None => if o >= s.recv_off {
                chunk_byte(c, o)
            } else {
                None
            },
        },
{
    reveal(StreamState::wf);
    reveal(StreamState::received);
    let t = c.plain().from(s.recv_off);
    lemma_merge_bytes(s.recv, t, s.recv_off, s.rx_data, o);
    assert(chunk_byte(t, o) == if o >= s.recv_off {
        chunk_byte(c, o)
    } else {
        None
    });
}

/// A chunk that arrives a second time changes nothing.
pub proof fn lemma_received_twice(s: StreamState, c: Chunk)
    requires
        s.wf(),
    ensures
        s.received(c).received(c) == s.received(c),
{
    reveal(StreamState::wf);
    reveal(StreamState::received);
    lemma_merge_idempotent(s.recv, c.plain().from(s.recv_off), s.recv_off, s.rx_data);
}


/// Bytes that arrive again change no byte: where the stream holds a byte
/// for every offset of the chunk that was not read yet, the stream holds
/// the same bytes after the chunk arrived as before.
pub proof fn lemma_received_again(s: StreamState, c: Chunk, o: int)
    requires
        s.wf(),
        0 <= c.off,
        forall|k: int| c.off <= k < c.end() && k >= s.recv_off ==> (#[trigger] s.byte(k)).is_some(),
    ensures
        s.received(c).byte(o) == s.byte(o),
{
    lemma_received_bytes(s, c, o);
}

} // verus!
