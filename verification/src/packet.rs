//! Packets: their headers, the coding of packet numbers, the protection of
//! header and payload, and the state of a packet number space.

use vstd::prelude::*;
use crate::Error;
use crate::crypto::{Keys, KeysView, Level, TAG_LEN};
use crate::frame::sized_at;
use crate::octets::{
    be16, be32, u16_bytes, u32_bytes, varint_bytes, push_u16, push_u32, push_varint,
    append, copy_range, Bytes, MAX_VARINT,
};
use crate::ranges::{canonical, inserted, RangeSet};
use crate::stream::{Stream, StreamState};

verus! {

/// The greatest length of a connection ID.
pub const MAX_CID_LEN: usize = 18;

/// The greatest packet number.
pub const MAX_PKT_NUM: u64 = MAX_VARINT;

/// The kinds of packets.
#[derive(Clone, Copy, Debug, PartialEq, Eq, Structural)]
pub enum Type {
    Initial,
    Retry,
    Handshake,
    ZeroRTT,
    VersionNegotiation,
    Application,
}

/// A packet's header as a mathematical value.
pub struct HeaderView {
    pub ty: Type,
    pub version: u32,
    pub flags: u8,
    pub dcid: Seq<u8>,
    pub scid: Seq<u8>,
    pub token: Option<Seq<u8>>,
}

/// A packet's header.
#[derive(Debug, PartialEq, Eq)]
pub struct Header {
    pub ty: Type,
    pub version: u32,
    pub flags: u8,
    pub dcid: Vec<u8>,
    pub scid: Vec<u8>,
    pub token: Option<Vec<u8>>,
}

impl View for Header {
    type V = HeaderView;

    open spec fn view(&self) -> HeaderView {
        HeaderView {
            ty: self.ty,
            version: self.version,
            flags: self.flags,
            dcid: self.dcid@,
            scid: self.scid@,
            token: match self.token {
                Some(t) => Some(t@),
                None => None,
            },
        }
    }
}

impl Clone for Header {
    fn clone(&self) -> (r: Header)
        ensures
            r@ == self@,
    {
        let dcid = copy_range(self.dcid.as_slice(), 0, self.dcid.len());
        let scid = copy_range(self.scid.as_slice(), 0, self.scid.len());
        assert(dcid@ =~= self.dcid@);
        assert(scid@ =~= self.scid@);
        let token = match &self.token {
            Some(t) => {
                let c = copy_range(t.as_slice(), 0, t.len());
                assert(c@ =~= t@);
                Some(c)
            },
            None => None,
        };
        Header { ty: self.ty, version: self.version, flags: self.flags, dcid, scid, token }
    }
}

/// Whether a packet whose first byte is `b` has a long header.
pub open spec fn spec_has_long_header(b: u8) -> bool {
    b >= 0x80
}

/// Whether a packet whose first byte is `b` has a long header.
pub fn has_long_header(b: u8) -> (r: bool)
    ensures
        r == spec_has_long_header(b),
{
    b >= 0x80
}

/// The length of the connection ID that the four bits `nibble` stand for:
/// none for zero, else three more than the number.
pub open spec fn cid_len(nibble: int) -> int {
    if nibble == 0 {
        0
    } else {
        nibble + 3
    }
}

/// Whether a connection ID of length `n` can stand in a long header.
pub open spec fn cid_len_ok(n: int) -> bool {
    n == 0 || 4 <= n <= 18
}

/// The four bits that stand for a connection ID of length `n`.
pub open spec fn cid_nibble(n: int) -> int {
    if n == 0 {
        0
    } else {
        n - 3
    }
}

/// The kind of packet that the first byte `flags` of a long header and its
/// version say. Version zero marks a version negotiation. Else the bit 0x40
/// must be set, and the two bits below it tell the kind; the four low bits
/// are protected and tell nothing here.
pub open spec fn long_type(flags: u8, version: u32) -> Result<Type, Error> {
    if version == 0 {
        Ok(Type::VersionNegotiation)
    } else if flags < 0xc0 {
        Err(Error::UnknownPacket)
    } else if flags < 0xd0 {
        Ok(Type::Initial)
    } else if flags < 0xe0 {
        Ok(Type::ZeroRTT)
    } else if flags < 0xf0 {
        Ok(Type::Handshake)
    } else {
        Ok(Type::Retry)
    }
}

/// The first byte of the long header of a packet of kind `ty`, before the
/// length of the packet number is put into its low bits: the seven low bits
/// are the kind's code.
pub open spec fn long_first_byte(ty: Type) -> Option<u8> {
    match ty {
        Type::Initial => Some(0xc0u8),
        Type::ZeroRTT => Some(0xd0u8),
        Type::Handshake => Some(0xe0u8),
        Type::Retry => Some(0xf0u8),
        _ => None,
    }
}

/// The long header at the start of `s`, with the offset behind it.
pub open spec fn long_header(s: Seq<u8>) -> Result<(HeaderView, int), Error> {
    if s.len() < 1 {
        Err(Error::BufferTooShort)
    } else if s[0] < 0x80 {
        Err(Error::WrongForm)
    } else if s.len() < 6 {
        Err(Error::BufferTooShort)
    } else {
        let flags = s[0];
        let version = be32(s, 1) as u32;
        let dn = cid_len(s[5] as int / 16);
        let sn = cid_len(s[5] as int % 16);
        if 6 + dn + sn > s.len() {
            Err(Error::BufferTooShort)
        } else {
            let dcid = s.subrange(6, 6 + dn);
            let scid = s.subrange(6 + dn, 6 + dn + sn);
            match long_type(flags, version) {
                Err(e) => Err(e),
                Ok(ty) => if ty == Type::Initial {
                    match sized_at(s, 6 + dn + sn) {
                        None => Err(Error::BufferTooShort),
                        Some((t, j)) => Ok(
                            (
                                HeaderView {
                                    ty,
                                    version,
                                    flags,
                                    dcid,
                                    scid,
                                    token: if t.len() == 0 {
                                        None
                                    } else {
                                        Some(t)
                                    },
                                },
                                j,
                            ),
                        ),
                    }
                } else {
                    Ok((HeaderView { ty, version, flags, dcid, scid, token: None }, 6 + dn + sn))
                },
            }
        }
    }
}

/// The short header at the start of `s`, whose destination connection ID
/// has `dcid_len` bytes, with the offset behind it.
pub open spec fn short_header(s: Seq<u8>, dcid_len: int) -> Result<(HeaderView, int), Error> {
    if s.len() < 1 || 1 + dcid_len > s.len() {
        Err(Error::BufferTooShort)
    } else if s[0] >= 0x80 {
        Err(Error::WrongForm)
    } else {
        Ok(
            (
                HeaderView {
                    ty: Type::Application,
                    version: 0,
                    flags: s[0],
                    dcid: s.subrange(1, 1 + dcid_len),
                    scid: Seq::empty(),
                    token: None,
                },
                1 + dcid_len,
            ),
        )
    }
}

/// The long header `h` on the wire, up to the field that holds the
/// packet's length: `None` for a kind that has no long header and for a
/// connection ID whose length cannot be written. No token is ever written.
pub open spec fn long_header_bytes(h: HeaderView) -> Option<Seq<u8>> {
    match long_first_byte(h.ty) {
        None => None,
        Some(first) => if !cid_len_ok(h.dcid.len() as int) || !cid_len_ok(h.scid.len() as int) {
            None
        } else {
            let cil = (cid_nibble(h.dcid.len() as int) * 16
                + cid_nibble(h.scid.len() as int)) as u8;
            let head = seq![first] + u32_bytes(h.version) + seq![cil] + h.dcid + h.scid;
            if h.ty == Type::Initial {
                Some(head + seq![0u8])
            } else {
                Some(head)
            }
        },
    }
}

/// The short header `h` on the wire: the byte 0x40, then the destination
/// connection ID.
pub open spec fn short_header_bytes(h: HeaderView) -> Seq<u8> {
    seq![0x40u8] + h.dcid
}

impl Header {
    /// Reads a long header at the cursor.
    pub fn long_from_bytes(b: &mut Bytes) -> (r: Result<Header, Error>)
        requires
            old(b).wf(),
            old(b).pos() == 0,
        ensures
            final(b).wf(),
            final(b).data() == old(b).data(),
            match long_header(old(b).data()) {
                Ok((h, j)) => r matches Ok(v) && v@ == h && final(b).pos() == j && v.dcid@.len()
                    <= MAX_CID_LEN && v.scid@.len() <= MAX_CID_LEN,
                Err(e) => r matches Err(e2) && e2 == e,
            },
    {
        let flags: u8 = b.get_u8()?;
        if !has_long_header(flags) {
            return Err(Error::WrongForm);
        }
        if b.cap() < 5 {
            return Err(Error::BufferTooShort);
        }
        let version: u32 = b.get_u32()?;
        let cil: u8 = b.get_u8()?;
        let dn: usize = if cil / 16 == 0 {
            0
        } else {
            (cil / 16) as usize + 3
        };
        let sn: usize = if cil % 16 == 0 {
            0
        } else {
            (cil % 16) as usize + 3
        };
        if b.cap() < dn + sn {
            return Err(Error::BufferTooShort);
        }
        let dcid = b.get_bytes(dn)?;
        let scid = b.get_bytes(sn)?;
        let ty = if version == 0 {
            Type::VersionNegotiation
        } else if flags < 0xc0 {
            return Err(Error::UnknownPacket);
        } else if flags < 0xd0 {
            Type::Initial
        } else if flags < 0xe0 {
            Type::ZeroRTT
        } else if flags < 0xf0 {
            Type::Handshake
        } else {
            Type::Retry
        };
        let mut token: Option<Vec<u8>> = None;
        if ty == Type::Initial {
            let n: u64 = b.get_varint()?;
            if n > b.cap() as u64 {
                return Err(Error::BufferTooShort);
            }
            let t = b.get_bytes(n as usize)?;
            if t.len() > 0 {
                token = Some(t);
            }
        }
        Ok(Header { ty, version, flags, dcid, scid, token })
    }

    /// Reads a short header at the cursor; its destination connection ID
    /// has `dcid_len` bytes.
    pub fn short_from_bytes(b: &mut Bytes, dcid_len: usize) -> (r: Result<Header, Error>)
        requires
            old(b).wf(),
            old(b).pos() == 0,
        ensures
            final(b).wf(),
            final(b).data() == old(b).data(),
            match short_header(old(b).data(), dcid_len as int) {
                Ok((h, j)) => r matches Ok(v) && v@ == h && final(b).pos() == j,
                Err(e) => r matches Err(e2) && e2 == e,
            },
    {
        if b.cap() < 1 || b.cap() - 1 < dcid_len {
            return Err(Error::BufferTooShort);
        }
        let flags: u8 = b.get_u8()?;
        if has_long_header(flags) {
            return Err(Error::WrongForm);
        }
        let dcid = b.get_bytes(dcid_len)?;
        Ok(
            Header {
                ty: Type::Application,
                version: 0,
                flags,
                dcid,
                scid: Vec::new(),
                token: None,
            },
        )
    }

    /// The long header on the wire, up to the field that holds the packet's
    /// length.
    pub fn long_to_vec(&self) -> (r: Result<Vec<u8>, Error>)
        ensures
            match r {
                Ok(v) => long_header_bytes(self@) == Some(v@),
                Err(e) => e == Error::InvalidPacket && long_header_bytes(self@).is_none(),
            },
    {
        let first: u8 = match self.ty {
            Type::Initial => 0xc0,
            Type::ZeroRTT => 0xd0,
            Type::Handshake => 0xe0,
            Type::Retry => 0xf0,
            _ => return Err(Error::InvalidPacket),
        };
        let dn: usize = self.dcid.len();
        let sn: usize = self.scid.len();
        if !(dn == 0 || (4 <= dn && dn <= 18)) || !(sn == 0 || (4 <= sn && sn <= 18)) {
            return Err(Error::InvalidPacket);
        }
        let dnib: u8 = if dn == 0 {
            0
        } else {
            (dn - 3) as u8
        };
        let snib: u8 = if sn == 0 {
            0
        } else {
            (sn - 3) as u8
        };
        let mut v: Vec<u8> = Vec::new();
        v.push(first);
        push_u32(&mut v, self.version);
        v.push(dnib * 16 + snib);
        append(&mut v, self.dcid.as_slice());
        append(&mut v, self.scid.as_slice());
        if self.ty == Type::Initial {
            v.push(0);
        }
        assert(v@ =~= long_header_bytes(self@).unwrap());
        Ok(v)
    }

    /// The short header on the wire.
    pub fn short_to_vec(&self) -> (r: Vec<u8>)
        ensures
            r@ == short_header_bytes(self@),
    {
        let mut v: Vec<u8> = Vec::new();
        v.push(0x40);
        append(&mut v, self.dcid.as_slice());
        v
    }

    /// Writes the long header at the cursor.
    pub fn long_to_bytes(&self, b: &mut Bytes) -> (r: Result<(), Error>)
        requires
            old(b).wf(),
        ensures
            final(b).wf(),
            match long_header_bytes(self@) {
                None => r == Err::<(), Error>(Error::InvalidPacket)
                    && final(b).data() == old(b).data() && final(b).pos() == old(b).pos(),
                Some(e) => final(b).wrote(old(b), e, r),
            },
    {
        match self.long_to_vec() {
            Ok(v) => b.put_bytes(v.as_slice()),
            Err(e) => Err(e),
        }
    }

    /// Writes the short header at the cursor.
    pub fn short_to_bytes(&self, b: &mut Bytes) -> (r: Result<(), Error>)
        requires
            old(b).wf(),
        ensures
            final(b).wf(),
            final(b).wrote(old(b), short_header_bytes(self@), r),
    {
        let v = self.short_to_vec();
        b.put_bytes(v.as_slice())
    }
}

/// The number of values that `len` bytes can tell apart.
pub open spec fn pn_window(len: int) -> int {
    if len == 1 {
        0x100
    } else if len == 2 {
        0x1_0000
    } else {
        0x1_0000_0000
    }
}

/// The number of bytes that carry the packet number `pn` when the greatest
/// number known to the peer is about `largest`: the fewest that tell `pn`
/// apart from its neighbours.
pub open spec fn spec_pkt_num_len(pn: u64, largest: u64) -> int {
    let gap = if pn > largest {
        pn - largest
    } else {
        0
    };
    if gap < 128 {
        1
    } else if gap < 32768 {
        2
    } else {
        4
    }
}

/// The low `len` bytes of `pn` in network byte order.
pub open spec fn pn_bytes(pn: u64, len: int) -> Seq<u8> {
    if len == 1 {
        seq![(pn % 0x100) as u8]
    } else if len == 2 {
        u16_bytes((pn % 0x1_0000) as u16)
    } else {
        u32_bytes((pn % 0x1_0000_0000) as u32)
    }
}

/// The number that the `len` bytes at `i` hold.
pub open spec fn truncated_at(s: Seq<u8>, i: int, len: int) -> int {
    if len == 1 {
        s[i] as int
    } else if len == 2 {
        be16(s, i)
    } else {
        be32(s, i)
    }
}

/// The packet number whose low `len` bytes hold `truncated` and which lies
/// nearest to the one expected after `largest`. Lengths other than 1, 2 and
/// 4, values that `len` bytes cannot hold and results above the greatest
/// packet number are refused.
#[verifier::opaque]
pub open spec fn spec_decode_pkt_num(largest: u64, truncated: u64, len: int) -> Result<u64, Error> {
    let win = pn_window(len);
    let hwin = win / 2;
    let expected = largest + 1;
    let candidate = expected - expected % win + truncated;
    if !(len == 1 || len == 2 || len == 4) || truncated >= win || largest > MAX_PKT_NUM {
        Err(Error::InvalidPacket)
    } else {
        let pn = if candidate + hwin <= expected && candidate + win <= MAX_PKT_NUM {
            candidate + win
        } else if candidate > expected + hwin && candidate >= win {
            candidate - win
        } else {
            candidate
        };
        if pn > MAX_PKT_NUM {
            Err(Error::InvalidPacket)
        } else {
            Ok(pn as u64)
        }
    }
}

/// The number of bytes that carry the packet number `pn`.
pub fn pkt_num_len(pn: u64, largest: u64) -> (n: usize)
    ensures
        n == spec_pkt_num_len(pn, largest),
{
    let gap: u64 = if pn > largest {
        pn - largest
    } else {
        0
    };
    if gap < 128 {
        1
    } else if gap < 32768 {
        2
    } else {
        4
    }
}

/// Appends the low `len` bytes of `pn`.
pub fn encode_pkt_num(pn: u64, len: usize, out: &mut Vec<u8>)
    requires
        len == 1 || len == 2 || len == 4,
    ensures
        final(out)@ == old(out)@ + pn_bytes(pn, len as int),
{
    if len == 1 {
        out.push((pn % 0x100) as u8);
        assert(out@ =~= old(out)@ + pn_bytes(pn, 1));
    } else if len == 2 {
        push_u16(out, (pn % 0x1_0000) as u16);
    } else {
        push_u32(out, (pn % 0x1_0000_0000) as u32);
    }
}

/// The packet number whose low `len` bytes hold `truncated`.
pub fn decode_pkt_num(largest: u64, truncated: u64, len: usize) -> (r: Result<u64, Error>)
    ensures
        r == spec_decode_pkt_num(largest, truncated, len as int),
        r matches Ok(pn) ==> pn <= MAX_PKT_NUM,
{
    proof {
        reveal(spec_decode_pkt_num);
    }
    if !(len == 1 || len == 2 || len == 4) || largest > MAX_PKT_NUM {
        return Err(Error::InvalidPacket);
    }
    let win: u64 = if len == 1 {
        0x100
    } else if len == 2 {
        0x1_0000
    } else {
        0x1_0000_0000
    };
    if truncated >= win {
        return Err(Error::InvalidPacket);
    }
    let hwin: u64 = win / 2;
    let expected: u64 = largest + 1;
    let low: u64 = expected % win;
    assert(low <= expected && low < win) by (nonlinear_arith)
        requires
            low == expected % win,
            win > 0,
            expected >= 0,
    ;
    let candidate: u64 = expected - low + truncated;
    let pn: u64 = if candidate + hwin <= expected && candidate + win <= MAX_PKT_NUM {
        candidate + win
    } else if candidate > expected + hwin && candidate >= win {
        candidate - win
    } else {
        candidate
    };
    if pn > MAX_PKT_NUM {
        return Err(Error::InvalidPacket);
    }
    Ok(pn)
}

/// A packet number survives being cut to the bytes chosen for it: where
/// `pn` lies above `largest`, by no more than 2^31, the number decoded from
/// its low bytes against `largest` is `pn`.
pub proof fn lemma_pkt_num_roundtrip(largest: u64, pn: u64)
    requires
        largest < pn <= MAX_PKT_NUM,
        pn - largest <= 0x8000_0000,
    ensures
        ({
            let len = spec_pkt_num_len(pn, largest);
            let s = pn_bytes(pn, len);
            spec_decode_pkt_num(largest, truncated_at(s, 0, len) as u64, len) == Ok::<u64, Error>(
                pn,
            )
        }),
{
    reveal(spec_decode_pkt_num);
    let len = spec_pkt_num_len(pn, largest);
    let s = pn_bytes(pn, len);
    let win = pn_window(len);
    let t = truncated_at(s, 0, len);
    if len == 1 {
        assert(t == pn % 0x100);
    } else if len == 2 {
        assert(s.subrange(0, 2) =~= s);
        crate::octets::lemma_u16_roundtrip((pn % 0x1_0000) as u16, s, 0);
        assert(t == pn % 0x1_0000);
    } else {
        assert(s.subrange(0, 4) =~= s);
        crate::octets::lemma_u32_roundtrip((pn % 0x1_0000_0000) as u32, s, 0);
        assert(t == pn % 0x1_0000_0000);
    }
    let p = pn as int;
    let expected = largest + 1;
    let candidate = expected - expected % win + t;
    assert(t == p % win);
    let a = p / win;
    let b = expected / win;
    assert(p == a * win + t) by (nonlinear_arith)
        requires
            t == p % win,
            a == p / win,
            win > 0,
    ;
    assert(expected == b * win + expected % win) by (nonlinear_arith)
        requires
            b == expected / win,
            win > 0,
    ;
    assert(candidate == b * win + t);
    assert(0 <= expected % win < win);
    assert(0 <= t < win);
    assert(0 <= p - expected <= win / 2 - 1);
    assert(a == b || a == b + 1) by (nonlinear_arith)
        requires
            p == a * win + t,
            expected == b * win + expected % win,
            0 <= t < win,
            0 <= expected % win < win,
            0 <= p - expected < win,
            win > 0,
    ;
    if a == b + 1 {
        assert(p == candidate + win) by (nonlinear_arith)
            requires
                p == a * win + t,
                candidate == b * win + t,
                a == b + 1,
        ;
    } else {
        assert(p == candidate) by (nonlinear_arith)
            requires
                p == a * win + t,
                candidate == b * win + t,
                a == b,
        ;
    }
}


/// The bits of a header's first byte that are protected: four in a long
/// header, five in a short one.
pub open spec fn first_mask(long: bool) -> u8 {
    if long {
        0x0f
    } else {
        0x1f
    }
}

/// The header `h`, whose last `pn_len` bytes are the packet number, with
/// the mask applied: the first byte of the mask to the protected bits of the
/// first byte, the following to the bytes of the packet number. Applying the
/// mask a second time takes it off again.
pub open spec fn masked(h: Seq<u8>, pn_len: int, mask: Seq<u8>, long: bool) -> Seq<u8> {
    Seq::new(
        h.len(),
        |i: int|
            if i == 0 {
                h[0] ^ (mask[0] & first_mask(long))
            } else if i >= h.len() - pn_len {
                h[i] ^ mask[i - (h.len() - pn_len) + 1]
            } else {
                h[i]
            },
    )
}

/// The header of a packet as it is authenticated: the header as written,
/// with the length of the packet number, less one, in the two low bits of
/// the first byte; in a long header the length of what follows, packet number
/// and protected payload; then the low bytes of the packet number.
pub open spec fn full_header(head: Seq<u8>, long: bool, pn: u64, pn_len: int, plain_len: int)
    -> Seq<
    u8,
> {
    let with_len = if long {
        head + varint_bytes((pn_len + plain_len + 16) as u64)
    } else {
        head
    };
    with_len.update(0, (head[0] + (pn_len - 1)) as u8) + pn_bytes(pn, pn_len)
}

/// The protected packet with the header `head`, the number `pn` in
/// `pn_len` bytes and the frames `plain`: the payload sealed under the full
/// header, and the header masked by what the sealed payload's sample gives.
/// The sample is the sixteen bytes that start four bytes behind the start of
/// the packet number.
#[verifier::opaque]
pub open spec fn sealed_packet(
    keys: KeysView,
    head: Seq<u8>,
    long: bool,
    pn: u64,
    pn_len: int,
    plain: Seq<u8>,
) -> Option<Seq<u8>> {
    let h = full_header(head, long, pn, pn_len, plain.len() as int);
    match keys.sealed(pn, h, plain) {
        None => None,
        Some(c) => match keys.mask(c.subrange(4 - pn_len, 20 - pn_len)) {
            None => None,
            Some(m) => Some(masked(h, pn_len, m, long) + c),
        },
    }
}

/// What a protected packet holds: its number, the length of the number on
/// the wire, and its frames. The packet number starts at `pn_off` in `s`, and
/// `payload_len` bytes belong to it and the sealed payload. `largest` is the
/// greatest packet number received so far.
#[verifier::opaque]
pub open spec fn opened_packet(
    keys: KeysView,
    s: Seq<u8>,
    pn_off: int,
    payload_len: int,
    largest: u64,
    long: bool,
) -> Result<(u64, int, Seq<u8>), Error> {
    if payload_len < 20 || pn_off + payload_len > s.len() {
        Err(Error::BufferTooShort)
    } else {
        match keys.mask(s.subrange(pn_off + 4, pn_off + 20)) {
            None => Err(Error::CryptoFail),
            Some(m) => {
                let first = s[0] ^ (m[0] & first_mask(long));
                let pn_len = first as int % 4 + 1;
                if pn_len == 3 {
                    Err(Error::InvalidPacket)
                } else {
                    let h = masked(s.subrange(0, pn_off + pn_len), pn_len, m, long);
                    match spec_decode_pkt_num(
                        largest,
                        truncated_at(h, pn_off, pn_len) as u64,
                        pn_len,
                    ) {
                        Err(e) => Err(e),
                        Ok(pn) => match keys.opened(
                            pn,
                            h,
                            s.subrange(pn_off + pn_len, pn_off + payload_len),
                        ) {
                            None => Err(Error::CryptoFail),
                            Some(p) => Ok((pn, pn_len, p)),
                        },
                    }
                }
            },
        }
    }
}

/// Whether the packet `p` opens, with the keys `keys`, to the packet number
/// `pn` and the frames `plain`, for every receiver whose greatest packet
/// number lets it find `pn` from its low `pn_len` bytes.
#[verifier::opaque]
pub open spec fn opens_to(
    keys: KeysView,
    p: Seq<u8>,
    long: bool,
    pn: u64,
    pn_len: int,
    plain: Seq<u8>,
) -> bool {
    forall|largest: u64| #[trigger]
        spec_decode_pkt_num(largest, (pn as int % pn_window(pn_len)) as u64, pn_len) == Ok::<
            u64,
            Error,
        >(pn) ==> opened_packet(
            keys,
            p,
            p.len() - plain.len() - 16 - pn_len,
            pn_len + plain.len() + 16,
            largest,
            long,
        ) == Ok::<(u64, int, Seq<u8>), Error>((pn, pn_len, plain))
}

/// Applies `mask` to the header `h`, whose last `pn_len` bytes are the
/// packet number.
fn apply_mask(h: &mut Vec<u8>, pn_len: usize, mask: &[u8], long: bool)
    requires
        1 <= pn_len <= 4,
        pn_len < old(h)@.len(),
        mask@.len() == 5,
    ensures
        final(h)@ == masked(old(h)@, pn_len as int, mask@, long),
{
    let n: usize = h.len();
    let bits: u8 = if long {
        0x0f
    } else {
        0x1f
    };
    let first: u8 = h[0] ^ (mask[0] & bits);
    h[0] = first;
    let mut i: usize = 0;
    while i < pn_len
        invariant
            0 <= i <= pn_len,
            1 <= pn_len <= 4,
            pn_len < n,
            n == h@.len(),
            n == old(h)@.len(),
            mask@.len() == 5,
            forall|j: int|
                0 <= j < n - pn_len + i ==> h@[j] == masked(old(h)@, pn_len as int, mask@, long)[j],
            forall|j: int| n - pn_len + i <= j < n ==> h@[j] == old(h)@[j],
        decreases pn_len - i,
    {
        let at: usize = n - pn_len + i;
        let v: u8 = h[at] ^ mask[i + 1];
        h[at] = v;
        i += 1;
    }
    assert(h@ =~= masked(old(h)@, pn_len as int, mask@, long));
}

/// Whether the packet `p` shows what protection leaves readable of a
/// packet with the header `head`, `pn_len` bytes of packet number and
/// `plain_len` bytes of frames: the bits of the first byte that tell the
/// header's form and the kind of packet, the rest of the header, in a long
/// header the length of what follows, and the length of it all.
pub open spec fn framed(p: Seq<u8>, head: Seq<u8>, long: bool, pn_len: int, plain_len: int)
    -> bool {
    let length = varint_bytes((pn_len + plain_len + 16) as u64);
    &&& p.len() == head.len() + (if long {
        length.len()
    } else {
        0
    }) + pn_len + plain_len + 16
    &&& if long {
        p[0] / 16 == head[0] / 16
    } else {
        (p[0] < 0x80) == (head[0] < 0x80)
    }
    &&& p.subrange(1, head.len() as int) == head.subrange(1, head.len() as int)
    &&& long ==> p.subrange(head.len() as int, (head.len() + length.len()) as int) == length
}

/// The mask leaves the high bits of a byte as they are.
proof fn lemma_mask_keeps_high_bits(x: u8, m: u8)
    ensures
        (x ^ (m & 0x0f)) / 16 == x / 16,
        ((x ^ (m & 0x1f)) < 0x80) == (x < 0x80),
{
    assert((x ^ (m & 0x0f)) / 16 == x / 16) by (bit_vector);
    assert(((x ^ (m & 0x1f)) < 0x80) == (x < 0x80)) by (bit_vector);
}

/// A packet made of a masked full header and a sealed payload shows what
/// protection leaves readable.
proof fn lemma_framed(
    head: Seq<u8>,
    long: bool,
    pn: u64,
    pn_len: int,
    plain_len: int,
    m: Seq<u8>,
    c: Seq<u8>,
)
    requires
        head.len() >= 1,
        head[0] % 16 == 0,
        pn_len == 1 || pn_len == 2 || pn_len == 4,
        m.len() == 5,
        c.len() == plain_len + 16,
        0 <= plain_len,
    ensures
        framed(
            masked(full_header(head, long, pn, pn_len, plain_len), pn_len, m, long) + c,
            head,
            long,
            pn_len,
            plain_len,
        ),
{
    let h = full_header(head, long, pn, pn_len, plain_len);
    let p = masked(h, pn_len, m, long) + c;
    let length = varint_bytes((pn_len + plain_len + 16) as u64);
    assert(h[0] == (head[0] + (pn_len - 1)) as u8);
    assert(h[0] / 16 == head[0] / 16);
    assert((h[0] < 0x80) == (head[0] < 0x80));
    lemma_mask_keeps_high_bits(h[0], m[0]);
    assert(p[0] == h[0] ^ (m[0] & first_mask(long)));
    assert(p.subrange(1, head.len() as int) =~= head.subrange(1, head.len() as int));
    if long {
        assert(p.subrange(head.len() as int, (head.len() + length.len()) as int) =~= length);
    }
}

/// Writes the full header of a packet.
fn write_full_header(head: &[u8], long: bool, pn: u64, pn_len: usize, plain_len: usize)
    -> (h: Vec<u8>)
    requires
        head@.len() >= 1,
        head@[0] % 4 == 0,
        pn_len == 1 || pn_len == 2 || pn_len == 4,
        pn_len + plain_len + 16 <= MAX_VARINT,
    ensures
        h@ == full_header(head@, long, pn, pn_len as int, plain_len as int),
        h@.len() > pn_len,
{
    let mut h: Vec<u8> = Vec::new();
    append(&mut h, head);
    if long {
        push_varint(&mut h, pn_len as u64 + plain_len as u64 + 16);
    }
    let first: u8 = head[0] + (pn_len - 1) as u8;
    h[0] = first;
    encode_pkt_num(pn, pn_len, &mut h);
    assert(h@ =~= full_header(head@, long, pn, pn_len as int, plain_len as int));
    h
}

/// A packet that was sealed opens again, where the cipher gave back what
/// it sealed.
proof fn lemma_opens_to(
    keys: KeysView,
    head: Seq<u8>,
    long: bool,
    pn: u64,
    pn_len: int,
    plain: Seq<u8>,
    p: Seq<u8>,
)
    requires
        head.len() >= 1,
        head[0] % 4 == 0,
        pn_len == 1 || pn_len == 2 || pn_len == 4,
        pn_len + plain.len() >= 4,
        sealed_packet(keys, head, long, pn, pn_len, plain) == Some(p),
        p.len() == full_header(head, long, pn, pn_len, plain.len() as int).len() + plain.len() + 16,
        ({
            let h = full_header(head, long, pn, pn_len, plain.len() as int);
            keys.sealed(pn, h, plain) matches Some(c)
                ==> c.len() == plain.len() + 16 && keys.opened(
                pn,
                h,
                c,
            ) == Some(plain) && (keys.mask(c.subrange(4 - pn_len, 20 - pn_len)) matches Some(m)
                ==> m.len() == 5)
        }),
    ensures
        opens_to(keys, p, long, pn, pn_len, plain),
{
    reveal(opens_to);
    assert forall|largest: u64| #[trigger]
        spec_decode_pkt_num(largest, (pn as int % pn_window(pn_len)) as u64, pn_len) == Ok::<
            u64,
            Error,
        >(pn) implies opened_packet(
        keys,
        p,
        p.len() - plain.len() - 16 - pn_len,
        pn_len + plain.len() + 16,
        largest,
        long,
    ) == Ok::<(u64, int, Seq<u8>), Error>((pn, pn_len, plain)) by {
        crate::roundtrip::lemma_packet_roundtrip(keys, head, long, pn, pn_len, plain, largest);
    }
}

/// Protects a packet: seals the frames `plain` under the full header and
/// masks the header. `head` is the header as written, the two low bits of
/// its first byte free for the length of the packet number; `pn_len` is the
/// number of bytes that carry the packet number. Number and frames together
/// must take four bytes at least, so that the sample lies within the
/// packet. The packet that results is one that the same keys open.
#[verifier::rlimit(40)]
pub fn seal_packet(keys: &Keys, head: &[u8], long: bool, pn: u64, pn_len: usize, plain: &[u8])
    -> (r:
    Result<Vec<u8>, Error>)
    requires
        keys.wf(),
        head@.len() >= 1,
        head@[0] % 4 == 0,
        pn_len == 1 || pn_len == 2 || pn_len == 4,
        pn_len + plain@.len() >= 4,
        pn_len + plain@.len() + 16 <= MAX_VARINT,
    ensures
        match r {
            Ok(p) => {
                &&& sealed_packet(keys@, head@, long, pn, pn_len as int, plain@) == Some(p@)
                &&& p@.len() == full_header(
                    head@,
                    long,
                    pn,
                    pn_len as int,
                    plain@.len() as int,
                ).len() + plain@.len() + 16
                &&& opens_to(keys@, p@, long, pn, pn_len as int, plain@)
                &&& head@[0] % 16 == 0 ==> framed(
                    p@,
                    head@,
                    long,
                    pn_len as int,
                    plain@.len() as int,
                )
            },
            Err(e) => e == Error::CryptoFail && sealed_packet(
                keys@,
                head@,
                long,
                pn,
                pn_len as int,
                plain@,
            ).is_none(),
        },
{
    proof {
        reveal(sealed_packet);
    }
    let mut h = write_full_header(head, long, pn, pn_len, plain.len());
    let c = match keys.seal(pn, h.as_slice(), plain) {
        Ok(c) => c,
        Err(e) => return Err(e),
    };
    let sample = copy_range(c.as_slice(), 4 - pn_len, 20 - pn_len);
    let m = match keys.new_mask(sample.as_slice()) {
        Ok(m) => m,
        Err(e) => return Err(e),
    };
    apply_mask(&mut h, pn_len, m.as_slice(), long);
    append(&mut h, c.as_slice());
    proof {
        lemma_opens_to(keys@, head@, long, pn, pn_len as int, plain@, h@);
        if head@[0] % 16 == 0 {
            lemma_framed(head@, long, pn, pn_len as int, plain@.len() as int, m@, c@);
        }
    }
    Ok(h)
}

/// Takes the protection off a packet: unmasks the header, decodes the
/// packet number against `largest`, and opens the payload under the header.
/// Returns the number, the length it had on the wire, and the frames.
pub fn open_packet(
    keys: &Keys,
    buf: &[u8],
    pn_off: usize,
    payload_len: usize,
    largest: u64,
    long: bool,
) -> (r: Result<(u64, usize, Vec<u8>), Error>)
    requires
        keys.wf(),
        1 <= pn_off <= buf@.len(),
    ensures
        match opened_packet(keys@, buf@, pn_off as int, payload_len as int, largest, long) {
            Ok((pn, pn_len, p)) => r matches Ok(v) && v.0 == pn && v.1 == pn_len && v.2@ == p
                && pn <= MAX_PKT_NUM && p.len() + pn_len + 16 == payload_len,
            Err(e) => r matches Err(e2) && e2 == e,
        },
{
    proof {
        reveal(opened_packet);
    }
    if payload_len < 20 || payload_len > buf.len() - pn_off {
        return Err(Error::BufferTooShort);
    }
    let sample = copy_range(buf, pn_off + 4, pn_off + 20);
    let m = keys.new_mask(sample.as_slice())?;
    let bits: u8 = if long {
        0x0f
    } else {
        0x1f
    };
    let first: u8 = buf[0] ^ (m[0] & bits);
    let pn_len: usize = (first % 4) as usize + 1;
    if pn_len == 3 {
        return Err(Error::InvalidPacket);
    }
    let mut h = copy_range(buf, 0, pn_off + pn_len);
    apply_mask(&mut h, pn_len, m.as_slice(), long);
    let truncated: u64 = if pn_len == 1 {
        h[pn_off] as u64
    } else if pn_len == 2 {
        (h[pn_off] as u64) * 0x100 + h[pn_off + 1] as u64
    } else {
        ((h[pn_off] as u64) * 0x100 + h[pn_off + 1] as u64) * 0x1_0000 + ((h[pn_off + 2] as u64)
            * 0x100 + h[pn_off + 3] as u64)
    };
    let pn: u64 = decode_pkt_num(largest, truncated, pn_len)?;
    let sealed = copy_range(buf, pn_off + pn_len, pn_off + payload_len);
    let plain = keys.open(pn, h.as_slice(), sealed.as_slice())?;
    Ok((pn, pn_len, plain))
}

/// Canonical ranges are at most half as many as their greatest element,
/// and one.
pub proof fn lemma_canonical_len(r: Seq<(u64, u64)>, i: int)
    requires
        canonical(r),
        0 <= i < r.len(),
    ensures
        r[i].0 >= 2 * i,
        r[i].1 >= 2 * i,
    decreases i,
{
    if i > 0 {
        lemma_canonical_len(r, i - 1);
        assert(r[i - 1].1 + 1 < r[i].0);
        assert(r[i - 1].0 <= r[i - 1].1);
    }
    assert(r[i].0 <= r[i].1);
}

/// A packet number space as a mathematical value.
pub struct SpaceView {
    pub pkt_type: Type,
    pub crypto_level: Level,
    pub crypto_open: Option<KeysView>,
    pub crypto_seal: Option<KeysView>,
    pub crypto_stream: StreamState,
    pub last_pkt_num: u64,
    pub largest_rx_pkt_num: u64,
    pub recv_pkt_num: Seq<(u64, u64)>,
    pub do_ack: bool,
}

impl SpaceView {
    /// The keys fit their ciphers, the stream of handshake data is in
    /// order, no packet number lies above the greatest, the received numbers
    /// are a canonical set below the greatest received, and an
    /// acknowledgement is owed only where numbers wait to be acknowledged.
    #[verifier::opaque]
    pub open spec fn wf(self) -> bool {
        &&& match self.crypto_open {
            Some(k) => k.wf(),
            None => true,
        }
        &&& match self.crypto_seal {
            Some(k) => k.wf(),
            None => true,
        }
        &&& self.crypto_stream.wf()
        &&& self.last_pkt_num <= MAX_PKT_NUM
        &&& self.largest_rx_pkt_num <= MAX_PKT_NUM
        &&& canonical(self.recv_pkt_num)
        &&& (self.recv_pkt_num.len() > 0 ==> self.recv_pkt_num.last().1 <= self.largest_rx_pkt_num)
        &&& (self.do_ack ==> self.recv_pkt_num.len() > 0)
    }

    /// The space after a packet with the number `pn` arrived in it; with
    /// `ack` the packet asks for an acknowledgement.
    pub open spec fn received(self, pn: u64, ack: bool) -> SpaceView {
        SpaceView {
            recv_pkt_num: inserted(self.recv_pkt_num, pn),
            do_ack: self.do_ack || ack,
            largest_rx_pkt_num: if pn > self.largest_rx_pkt_num {
                pn
            } else {
                self.largest_rx_pkt_num
            },
            ..self
        }
    }

    /// Whether the space has something to send: handshake data or an
    /// acknowledgement.
    pub open spec fn has_work(self) -> bool {
        self.crypto_stream.can_write() || self.do_ack
    }
}

/// The state of one packet number space: its keys, its stream of handshake
/// data, the next packet number to send, and the packet numbers received.
#[derive(Debug)]
pub struct PktNumSpace {
    pub pkt_type: Type,
    pub crypto_level: Level,
    pub crypto_open: Option<Keys>,
    pub crypto_seal: Option<Keys>,
    pub crypto_stream: Stream,
    pub last_pkt_num: u64,
    pub largest_rx_pkt_num: u64,
    pub recv_pkt_num: RangeSet,
    pub do_ack: bool,
}

impl View for PktNumSpace {
    type V = SpaceView;

    open spec fn view(&self) -> SpaceView {
        SpaceView {
            pkt_type: self.pkt_type,
            crypto_level: self.crypto_level,
            crypto_open: match self.crypto_open {
                Some(k) => Some(k@),
                None => None,
            },
            crypto_seal: match self.crypto_seal {
                Some(k) => Some(k@),
                None => None,
            },
            crypto_stream: self.crypto_stream@,
            last_pkt_num: self.last_pkt_num,
            largest_rx_pkt_num: self.largest_rx_pkt_num,
            recv_pkt_num: self.recv_pkt_num@,
            do_ack: self.do_ack,
        }
    }
}

/// A space in which nothing was sent or received, without keys.
pub open spec fn new_space(pkt_type: Type, crypto_level: Level) -> SpaceView {
    SpaceView {
        pkt_type,
        crypto_level,
        crypto_open: None,
        crypto_seal: None,
        crypto_stream: crate::stream::new_stream(u64::MAX, u64::MAX),
        last_pkt_num: 0,
        largest_rx_pkt_num: 0,
        recv_pkt_num: Seq::empty(),
        do_ack: false,
    }
}

impl PktNumSpace {
    /// See `SpaceView::wf`.
    pub open spec fn wf(&self) -> bool {
        self@.wf()
    }

    /// A space for packets of kind `pkt_type`, whose handshake data belongs
    /// to the stage `crypto_level`.
    pub fn new(pkt_type: Type, crypto_level: Level) -> (r: PktNumSpace)
        ensures
            r.wf(),
            r@ == new_space(pkt_type, crypto_level),
    {
        proof {
            reveal(SpaceView::wf);
        }
        PktNumSpace {
            pkt_type,
            crypto_level,
            crypto_open: None,
            crypto_seal: None,
            crypto_stream: Stream::new(u64::MAX, u64::MAX),
            last_pkt_num: 0,
            largest_rx_pkt_num: 0,
            recv_pkt_num: RangeSet::new(),
            do_ack: false,
        }
    }

    /// The number of bytes that sealing adds to a payload.
    pub fn overhead(&self) -> (n: usize)
        ensures
            n == TAG_LEN,
    {
        TAG_LEN
    }

    /// Puts in the keys of this stage.
    pub fn install_keys(&mut self, open: Keys, seal: Keys)
        requires
            old(self).wf(),
            open.wf(),
            seal.wf(),
        ensures
            final(self).wf(),
            final(self)@ == (SpaceView {
                crypto_open: Some(open@),
                crypto_seal: Some(seal@),
                ..old(self)@
            }),
    {
        proof {
            reveal(SpaceView::wf);
        }
        self.crypto_open = Some(open);
        self.crypto_seal = Some(seal);
    }

    /// Queues handshake data for sending at this stage.
    pub fn push_handshake_data(&mut self, data: &[u8]) -> (r: Result<usize, Error>)
        requires
            old(self).wf(),
        ensures
            final(self).wf(),
            match r {
                Ok(n) => {
                    let cs = old(self)@.crypto_stream;
                    &&& n == data@.len()
                    &&& cs.send_off + data@.len() <= crate::stream::MAX_OFFSET
                    &&& final(self)@ == (SpaceView {
                        crypto_stream: StreamState {
                            send: if data@.len() == 0 {
                                cs.send
                            } else {
                                cs.send.push(
                                    crate::stream::Chunk {
                                        data: data@,
                                        off: cs.send_off,
                                        fin: false,
                                    },
                                )
                            },
                            send_off: cs.send_off + data@.len(),
                            ..cs
                        },
                        ..old(self)@
                    })
                },
                Err(e) => {
                    &&& e == Error::FlowControl
                    &&& old(self)@.crypto_stream.send_off + data@.len() > crate::stream::MAX_OFFSET
                    &&& final(self)@ == old(self)@
                },
            },
    {
        proof {
            reveal(SpaceView::wf);
        }
        self.crypto_stream.push_send(data, false)
    }

    /// A copy of the packet numbers that wait to be acknowledged.
    pub fn ack_ranges(&self) -> (r: RangeSet)
        requires
            self.wf(),
        ensures
            r@ == self@.recv_pkt_num,
            r.wf(),
            r@.len() > 0 ==> r@.last().1 <= MAX_PKT_NUM,
            r@.len() <= MAX_PKT_NUM + 1,
            self@.do_ack ==> r@.len() > 0,
    {
        proof {
            reveal(SpaceView::wf);
            if self@.recv_pkt_num.len() > 0 {
                lemma_canonical_len(self@.recv_pkt_num, self@.recv_pkt_num.len() - 1);
            }
        }
        self.recv_pkt_num.clone()
    }

    /// Forgets the packet numbers that wait to be acknowledged: their
    /// acknowledgement is on its way.
    pub fn clear_ack(&mut self)
        requires
            old(self).wf(),
        ensures
            final(self).wf(),
            final(self)@ == (SpaceView { recv_pkt_num: Seq::empty(), do_ack: false, ..old(self)@ }),
    {
        proof {
            reveal(SpaceView::wf);
        }
        self.recv_pkt_num.clear();
        self.do_ack = false;
    }

    /// A copy of the handshake data that the next packet can take when it
    /// has room for `max_len` bytes.
    pub fn peek_crypto(&self, max_len: usize) -> (r: crate::stream::RangeBuf)
        requires
            self.wf(),
        ensures
            r@ == self@.crypto_stream.head(max_len as int),
            r.wf(),
    {
        proof {
            reveal(SpaceView::wf);
        }
        self.crypto_stream.peek_send(max_len)
    }

    /// Takes out the handshake data that the next packet can take when it
    /// has room for `max_len` bytes.
    pub fn pop_crypto(&mut self, max_len: usize) -> (r: crate::stream::RangeBuf)
        requires
            old(self).wf(),
        ensures
            final(self).wf(),
            r@ == old(self)@.crypto_stream.head(max_len as int),
            r.wf(),
            final(self)@ == (SpaceView {
                crypto_stream: StreamState {
                    send: old(self)@.crypto_stream.behind_head(max_len as int),
                    ..old(self)@.crypto_stream
                },
                ..old(self)@
            }),
    {
        proof {
            reveal(SpaceView::wf);
        }
        self.crypto_stream.pop_send(max_len)
    }

    /// Counts one packet as sent: the next gets the next number.
    pub fn next_pkt_num(&mut self)
        requires
            old(self).wf(),
            old(self)@.last_pkt_num < MAX_PKT_NUM,
        ensures
            final(self).wf(),
            final(self)@ == (SpaceView {
                last_pkt_num: (old(self)@.last_pkt_num + 1) as u64,
                ..old(self)@
            }),
    {
        proof {
            reveal(SpaceView::wf);
        }
        self.last_pkt_num = self.last_pkt_num + 1;
    }

    /// Takes out the handshake data that arrived for this stage and stands
    /// ready to be read, as far as it follows without a gap.
    pub fn read_crypto(&mut self) -> (r: crate::stream::RangeBuf)
        requires
            old(self).wf(),
        ensures
            final(self).wf(),
            ({
                let cs = old(self)@.crypto_stream;
                let n = crate::stream::run_len(cs.recv, cs.recv_off);
                &&& r@.data == crate::stream::flat(cs.recv, n)
                &&& r@.off == cs.recv_off
                &&& final(self)@ == (SpaceView {
                    crypto_stream: StreamState {
                        recv: cs.recv.skip(n),
                        recv_off: cs.recv_off + r@.data.len(),
                        ..cs
                    },
                    ..old(self)@
                })
            }),
    {
        proof {
            reveal(SpaceView::wf);
        }
        self.crypto_stream.pop_recv()
    }

    /// Takes in handshake data that arrived for this stage.
    pub fn push_crypto(&mut self, data: crate::stream::RangeBuf)
        requires
            old(self).wf(),
        ensures
            final(self).wf(),
            final(self)@ == (SpaceView {
                crypto_stream: if data@.end() <= old(self)@.crypto_stream.max_rx_data {
                    old(self)@.crypto_stream.received(data@)
                } else {
                    old(self)@.crypto_stream
                },
                ..old(self)@
            }),
    {
        proof {
            reveal(SpaceView::wf);
        }
        let _ = self.crypto_stream.push_recv(data);
    }

    /// Takes note of a packet with the number `pn` that arrived; with `ack`
    /// the packet asks for an acknowledgement.
    pub fn on_packet(&mut self, pn: u64, ack: bool)
        requires
            old(self).wf(),
            pn <= MAX_PKT_NUM,
        ensures
            final(self).wf(),
            final(self)@ == old(self)@.received(pn, ack),
    {
        proof {
            reveal(SpaceView::wf);
        }
        let ghost before = self.recv_pkt_num;
        self.recv_pkt_num.push_item(pn);
        if ack {
            self.do_ack = true;
        }
        if pn > self.largest_rx_pkt_num {
            self.largest_rx_pkt_num = pn;
        }
        proof {
            let after = self.recv_pkt_num@;
            assert(self.recv_pkt_num.contains(pn));
            let k = after.len() - 1;
            assert(after[k].0 <= after[k].1);
            let top = after[k].1;
            assert(self.recv_pkt_num.contains(top));
            if before.contains(top) {
                let j = choose|j: int|
                    0 <= j < before@.len() && (#[trigger] before@[j]).0 <= top <= before@[j].1;
                if j < before@.len() - 1 {
                    assert(before@[j].1 + 1 < before@[before@.len() - 1].0);
                    assert(before@[before@.len() - 1].0 <= before@[before@.len() - 1].1);
                }
            }
        }
    }
}


/// What the order of a space says of its parts.
pub proof fn lemma_space_bounds(sp: SpaceView)
    requires
        sp.wf(),
    ensures
        sp.crypto_stream.wf(),
        sp.last_pkt_num <= MAX_PKT_NUM,
        sp.largest_rx_pkt_num <= MAX_PKT_NUM,
        canonical(sp.recv_pkt_num),
        sp.recv_pkt_num.len() > 0 ==> sp.recv_pkt_num.last().1 <= sp.largest_rx_pkt_num,
        sp.do_ack ==> sp.recv_pkt_num.len() > 0,
        sp.crypto_open matches Some(k) ==> k.wf(),
        sp.crypto_seal matches Some(k) ==> k.wf(),
{
    reveal(SpaceView::wf);
}

} // verus!
