//! What is sent is received: a packet that one connection writes is one
//! that its peer reads, and holds for the peer what was put into it.

use vstd::prelude::*;
use crate::Error;
use crate::conn::{
    arrival, bounds, drafted, frames_error, level_of, open_keys, peer_can_open, planned, pumped,
    recv_spec, selected, Arrival, Bounds, ConnView,
};
use crate::crypto::{KeysView, Level};
use crate::frame::frames_bytes;
use crate::octets::varint_at;
use crate::packet::{
    framed, long_header, long_header_bytes, masked, opened_packet, opens_to, pn_window,
    short_header_bytes, spec_decode_pkt_num, truncated_at, HeaderView, Type,
};
use crate::tls::OutcomeView;
use crate::roundtrip::{
    as_read_all, lemma_long_header_roundtrip, lemma_short_header_roundtrip, lemma_varint,
};

verus! {

/// The header that the connection `c` writes on packets of the given
/// stage.
pub open spec fn sent_header(c: ConnView, level: Level) -> HeaderView {
    HeaderView {
        ty: c.space(level).pkt_type,
        version: c.version,
        flags: 0,
        dcid: c.dcid,
        scid: c.scid,
        token: None,
    }
}

/// The header that a reader finds on the packet `p` that the connection
/// `c` wrote at the given stage.
pub open spec fn read_header(c: ConnView, level: Level, p: Seq<u8>) -> HeaderView {
    if level == Level::Application {
        HeaderView {
            ty: Type::Application,
            version: 0,
            flags: p[0],
            dcid: c.dcid,
            scid: Seq::empty(),
            token: None,
        }
    } else {
        HeaderView { flags: p[0], ..sent_header(c, level) }
    }
}

/// The bounds of a packet that was sent are found by the peer: where `p`
/// is the next packet of the connection `c`, a peer of the same version,
/// whose connection ID has the length that `c` takes it to have, finds the
/// header that `c` wrote, and the packet number and the payload where `c`
/// put them.
pub proof fn lemma_sent_bounds(c: ConnView, cap: int, p: Seq<u8>, peer: ConnView)
    requires
        c.wf(),
        c.version != 0,
        peer_can_open(c, cap, p),
        peer.version == c.version,
        peer.scid.len() == c.dcid.len(),
    ensures
        ({
            let pl = planned(c, cap).unwrap();
            let plain = frames_bytes(drafted(c, pl.level, pl.pn_len, pl.left).frames);
            bounds(peer, p) == Ok::<Bounds, Error>(
                Bounds {
                    hdr: read_header(c, pl.level, p),
                    long: pl.level != Level::Application,
                    pn_off: p.len() - plain.len() - 16 - pl.pn_len,
                    payload_len: pl.pn_len + plain.len() + 16,
                },
            )
        }),
{
    let pl = planned(c, cap).unwrap();
    let plain = frames_bytes(drafted(c, pl.level, pl.pn_len, pl.left).frames);
    let h = sent_header(c, pl.level);
    let long = pl.level != Level::Application;
    lemma_plan(c, cap);
    assert(framed(p, pl.head, long, pl.pn_len, plain.len() as int));
    assert(plain.len() <= p.len() <= 0xffff);
    lemma_framed_bounds(h, pl.head, long, pl.pn_len, plain.len() as int, p, peer);
}

/// What a plan holds: the header of the stage's kind of packet, as it is
/// written.
proof fn lemma_plan(c: ConnView, cap: int)
    requires
        c.wf(),
        planned(c, cap).is_ok(),
    ensures
        ({
            let pl = planned(c, cap).unwrap();
            let h = sent_header(c, pl.level);
            &&& pl.level != Level::Application ==> long_header_bytes(h) == Some(pl.head)
            &&& pl.level == Level::Application ==> short_header_bytes(h) == pl.head
            &&& level_of(h.ty) == Some(pl.level)
            &&& 0 < pl.pn_len <= 4
        }),
{
    reveal(planned);
}

/// The bounds of a packet that shows its header are found by a peer of
/// the header's version whose connection ID has the length of the header's
/// destination.
proof fn lemma_framed_bounds(
    h: HeaderView,
    head: Seq<u8>,
    long: bool,
    pn_len: int,
    plain_len: int,
    p: Seq<u8>,
    peer: ConnView,
)
    requires
        h.version != 0,
        0 < pn_len <= 4,
        0 <= plain_len <= 0xffff,
        long ==> long_header_bytes(h) == Some(head) && h.ty != Type::Application,
        !long ==> short_header_bytes(h) == head,
        framed(p, head, long, pn_len, plain_len),
        peer.version == h.version,
        peer.scid.len() == h.dcid.len(),
    ensures
        bounds(peer, p) == Ok::<Bounds, Error>(
            Bounds {
                hdr: if long {
                    HeaderView { flags: p[0], token: None, ..h }
                } else {
                    HeaderView {
                        ty: Type::Application,
                        version: 0,
                        flags: p[0],
                        dcid: h.dcid,
                        scid: Seq::empty(),
                        token: None,
                    }
                },
                long,
                pn_off: p.len() - plain_len - 16 - pn_len,
                payload_len: pn_len + plain_len + 16,
            },
        ),
{
    reveal(bounds);
    if long {
        assert(head[0] >= 0xc0);
        lemma_long_header_roundtrip(h, p);
        let n = (pn_len + plain_len + 16) as u64;
        lemma_varint(p, head.len() as int, n);
    } else {
        assert(head[0] == 0x40);
        lemma_short_header_roundtrip(h, p);
    }
}

/// What is sent is received: where `p` is the next packet of the
/// connection `c`, a peer that has the keys of the packet's stage, that can
/// find the packet's number from the bytes sent, and that can take in the
/// packet's frames, finds in `p` exactly one packet, which holds the number
/// and the frames that `c` sent, and nothing else.
pub proof fn lemma_sent_is_received(c: ConnView, cap: int, p: Seq<u8>, peer: ConnView)
    requires
        c.wf(),
        c.version != 0,
        peer_can_open(c, cap, p),
        peer.version == c.version,
        peer.scid.len() == c.dcid.len(),
        peer.derived_initial_secrets,
        ({
            let pl = planned(c, cap).unwrap();
            let frames = drafted(c, pl.level, pl.pn_len, pl.left).frames;
            &&& peer.space(pl.level).crypto_open == Some(pl.keys)
            &&& spec_decode_pkt_num(
                peer.space(pl.level).largest_rx_pkt_num,
                (pl.pn as int % pn_window(pl.pn_len)) as u64,
                pl.pn_len,
            ) == Ok::<u64, Error>(pl.pn)
            &&& frames_error(peer, Seq::empty(), as_read_all(frames), 0).is_none()
        }),
    ensures
        ({
            let pl = planned(c, cap).unwrap();
            let frames = drafted(c, pl.level, pl.pn_len, pl.left).frames;
            arrival(peer, p) == Ok::<Arrival, Error>(
                Arrival {
                    hdr: read_header(c, pl.level, p),
                    level: pl.level,
                    derived: None,
                    pn: pl.pn,
                    frames: as_read_all(frames),
                    len: p.len() as int,
                },
            )
        }),
{
    let pl = planned(c, cap).unwrap();
    let frames = drafted(c, pl.level, pl.pn_len, pl.left).frames;
    let plain = frames_bytes(frames);
    let hdr = read_header(c, pl.level, p);
    reveal(arrival);
    reveal(selected);
    lemma_plan(c, cap);
    lemma_sent_bounds(c, cap, p, peer);
    assert(level_of(hdr.ty) == Some(pl.level));
    assert(open_keys(peer, None, pl.level) == Some(pl.keys));
    assert(selected(peer, hdr) == Ok::<
        (Option<(KeysView, KeysView)>, Level, KeysView),
        Error,
    >((None, pl.level, pl.keys)));
    reveal(opens_to);
    assert(opens_to(pl.keys, p, pl.level != Level::Application, pl.pn, pl.pn_len, plain));
}

/// What stands in the first `n` bytes of `s` stands in the start of `s`
/// that these bytes make.
proof fn lemma_take_subrange(s: Seq<u8>, n: int, a: int, b: int)
    requires
        0 <= a <= b <= n <= s.len(),
    ensures
        s.take(n).subrange(a, b) == s.subrange(a, b),
{
    assert(s.take(n).subrange(a, b) =~= s.subrange(a, b));
}

/// A variable-length integer is read from the bytes that it takes: what
/// follows does not matter.
proof fn lemma_varint_prefix(s: Seq<u8>, n: int, i: int)
    requires
        0 <= i,
        0 <= n <= s.len(),
        varint_at(s, i) matches Some(v) && v.1 <= n,
    ensures
        varint_at(s.take(n), i) == varint_at(s, i),
{
    let t = s.take(n);
    assert forall|k: int| 0 <= k < n implies t[k] == s[k] by {}
}

/// A long header is read from the bytes that it takes: what follows does
/// not matter.
proof fn lemma_long_header_prefix(s: Seq<u8>, n: int)
    requires
        0 <= n <= s.len(),
        long_header(s) matches Ok(h) && h.1 <= n,
    ensures
        long_header(s.take(n)) == long_header(s),
{
    let t = s.take(n);
    let h = long_header(s).unwrap();
    assert forall|k: int| 0 <= k < n implies t[k] == s[k] by {}
    let dn = crate::packet::cid_len(s[5] as int / 16);
    let sn = crate::packet::cid_len(s[5] as int % 16);
    lemma_take_subrange(s, n, 6, 6 + dn);
    lemma_take_subrange(s, n, 6 + dn, 6 + dn + sn);
    if h.0.ty == Type::Initial {
        let at = 6 + dn + sn;
        let len = varint_at(s, at).unwrap();
        lemma_varint_prefix(s, n, at);
        lemma_take_subrange(s, n, len.1, len.1 + len.0);
    }
}

/// A packet is opened from the bytes that it takes: what follows does not
/// matter.
proof fn lemma_opened_prefix(
    keys: KeysView,
    s: Seq<u8>,
    pn_off: int,
    payload_len: int,
    largest: u64,
    long: bool,
)
    requires
        1 <= pn_off,
        20 <= payload_len,
        pn_off + payload_len <= s.len(),
    ensures
        opened_packet(keys, s.take(pn_off + payload_len), pn_off, payload_len, largest, long)
            == opened_packet(keys, s, pn_off, payload_len, largest, long),
{
    reveal(opened_packet);
    let n = pn_off + payload_len;
    let t = s.take(n);
    assert(t[0] == s[0]);
    lemma_take_subrange(s, n, pn_off + 4, pn_off + 20);
    lemma_take_subrange(s, n, 0, pn_off + 1);
    lemma_take_subrange(s, n, 0, pn_off + 2);
    lemma_take_subrange(s, n, 0, pn_off + 3);
    lemma_take_subrange(s, n, 0, pn_off + 4);
    lemma_take_subrange(s, n, pn_off + 1, n);
    lemma_take_subrange(s, n, pn_off + 2, n);
    lemma_take_subrange(s, n, pn_off + 3, n);
    lemma_take_subrange(s, n, pn_off + 4, n);
}

/// A datagram is taken in by its first packet alone: where the connection
/// `c` takes `n` bytes of the datagram `buf`, it takes the datagram that
/// these `n` bytes make in the same way, with the same result.
pub proof fn lemma_recv_takes_one_packet(c: ConnView, buf: Seq<u8>, o: OutcomeView)
    requires
        buf.len() <= usize::MAX,
        recv_spec(c, buf, o).1.is_ok(),
    ensures
        ({
            let n = recv_spec(c, buf, o).1.unwrap() as int;
            &&& 0 < n <= buf.len()
            &&& recv_spec(c, buf.take(n), o) == recv_spec(c, buf, o)
        }),
{
    reveal(arrival);
    reveal(bounds);
    let c1 = pumped(c, o).0;
    let a = arrival(c1, buf).unwrap();
    let b = bounds(c1, buf).unwrap();
    let n = b.pn_off + b.payload_len;
    let long = buf[0] >= 0x80;
    let sel = selected(c1, b.hdr).unwrap();
    assert(opened_packet(
        sel.2,
        buf,
        b.pn_off,
        b.payload_len,
        c1.space(sel.1).largest_rx_pkt_num,
        b.long,
    ).is_ok());
    assert(b.payload_len >= 20 && b.pn_off >= 1) by {
        reveal(opened_packet);
    }
    assert(a.len == n);
    let t = buf.take(n);
    assert(t[0] == buf[0]);
    if long {
        let h = long_header(buf).unwrap();
        lemma_long_header_prefix(buf, n);
        if h.0.ty != Type::Application {
            lemma_varint_prefix(buf, n, h.1);
        }
    } else {
        assert(t =~= buf);
    }
    assert(bounds(c1, t) == bounds(c1, buf));
    lemma_opened_prefix(
        sel.2,
        buf,
        b.pn_off,
        b.payload_len,
        c1.space(sel.1).largest_rx_pkt_num,
        b.long,
    );
}

} // verus!
