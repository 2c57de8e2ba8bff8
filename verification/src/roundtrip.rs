//! What is written can be read: packets and frames survive the wire.

use vstd::prelude::*;
use crate::Error;
use crate::crypto::KeysView;
use crate::frame::{
    ack_at, ack_ranges_at, ack_tail, chunk_at, close_at, frame_at, frames_at, frames_bytes,
    lemma_frames_bytes_push, new_conn_id_at, sized_at, sized_bytes, stream_at,
    token_or_crypto_at, zeros, zeros_at, FrameView,
};
use crate::octets::{
    lemma_u16_roundtrip, lemma_u32_roundtrip, lemma_varint_roundtrip_at, u16_bytes, u32_bytes,
    varint_at, varint_bytes, varint_len, MAX_VARINT,
};
use crate::ranges::canonical;
use crate::stream::{Chunk, MAX_OFFSET};
use crate::packet::{
    cid_len, cid_nibble, first_mask, full_header, long_first_byte, long_header,
    long_header_bytes, long_type, masked, opened_packet, pn_bytes, pn_window, sealed_packet,
    short_header, short_header_bytes, spec_decode_pkt_num, truncated_at, HeaderView, Type,
};

verus! {

/// A byte masked twice with the same mask is the byte.
proof fn lemma_xor_twice(a: u8, b: u8)
    ensures
        (a ^ b) ^ b == a,
{
    assert((a ^ b) ^ b == a) by (bit_vector);
}

/// A header masked twice with the same mask is the header.
pub proof fn lemma_masked_twice(h: Seq<u8>, pn_len: int, mask: Seq<u8>, long: bool)
    requires
        1 <= pn_len <= 4,
        pn_len < h.len(),
        mask.len() == 5,
    ensures
        masked(masked(h, pn_len, mask, long), pn_len, mask, long) == h,
{
    let m1 = masked(h, pn_len, mask, long);
    let m2 = masked(m1, pn_len, mask, long);
    assert forall|i: int| 0 <= i < h.len() implies m2[i] == h[i] by {
        if i == 0 {
            lemma_xor_twice(h[0], mask[0] & first_mask(long));
        } else if i >= h.len() - pn_len {
            lemma_xor_twice(h[i], mask[i - (h.len() - pn_len) + 1]);
        }
    }
    assert(m2 =~= h);
}

/// The bytes of a packet number hold the number's low part.
pub proof fn lemma_truncated(pn: u64, pn_len: int, s: Seq<u8>, i: int)
    requires
        pn_len == 1 || pn_len == 2 || pn_len == 4,
        0 <= i,
        i + pn_len <= s.len(),
        s.subrange(i, i + pn_len) == pn_bytes(pn, pn_len),
    ensures
        truncated_at(s, i, pn_len) == pn as int % pn_window(pn_len),
{
    if pn_len == 1 {
        assert(s[i] == s.subrange(i, i + 1)[0]);
    } else if pn_len == 2 {
        lemma_u16_roundtrip((pn % 0x1_0000) as u16, s, i);
    } else {
        lemma_u32_roundtrip((pn % 0x1_0000_0000) as u32, s, i);
    }
}

/// What the full header of a packet holds: in the low bits of its first
/// byte the length of the packet number, and at its end the low bytes of
/// the packet number.
pub proof fn lemma_full_header(head: Seq<u8>, long: bool, pn: u64, pn_len: int, plain_len: int)
    requires
        head.len() >= 1,
        head[0] % 4 == 0,
        pn_len == 1 || pn_len == 2 || pn_len == 4,
    ensures
        ({
            let h = full_header(head, long, pn, pn_len, plain_len);
            &&& h.len() > pn_len
            &&& h[0] as int % 4 + 1 == pn_len
            &&& h.subrange(h.len() - pn_len, h.len() as int) == pn_bytes(pn, pn_len)
        }),
{
    let h = full_header(head, long, pn, pn_len, plain_len);
    assert(h[0] == (head[0] + (pn_len - 1)) as u8);
    assert(h.subrange(h.len() - pn_len, h.len() as int) =~= pn_bytes(pn, pn_len));
}

/// What stands in a packet that is made of a masked header and a sealed
/// payload: the sample from which the mask derives, the header under the
/// mask, and the payload.
pub proof fn lemma_unmask(h: Seq<u8>, c: Seq<u8>, m: Seq<u8>, pn_len: int, long: bool)
    requires
        1 <= pn_len <= 4,
        pn_len < h.len(),
        m.len() == 5,
        c.len() >= 20 - pn_len,
    ensures
        ({
            let p = masked(h, pn_len, m, long) + c;
            let pn_off = h.len() - pn_len;
            &&& p.subrange(pn_off + 4, pn_off + 20) == c.subrange(4 - pn_len, 20 - pn_len)
            &&& p[0] ^ (m[0] & first_mask(long)) == h[0]
            &&& masked(p.subrange(0, pn_off + pn_len), pn_len, m, long) == h
            &&& p.subrange(pn_off + pn_len, pn_off + pn_len + c.len()) == c
            &&& p.len() == h.len() + c.len()
        }),
{
    let p = masked(h, pn_len, m, long) + c;
    let pn_off = h.len() - pn_len;
    assert(p.subrange(pn_off + 4, pn_off + 20) =~= c.subrange(4 - pn_len, 20 - pn_len));
    assert(p[0] == masked(h, pn_len, m, long)[0]);
    lemma_xor_twice(h[0], m[0] & first_mask(long));
    assert(p.subrange(0, pn_off + pn_len) =~= masked(h, pn_len, m, long));
    lemma_masked_twice(h, pn_len, m, long);
    assert(p.subrange(pn_off + pn_len, pn_off + pn_len + c.len()) =~= c);
}

/// A protected packet can be opened again with the keys that sealed it, and
/// holds what was put into it: the packet number and the bytes of the
/// frames. This holds for every cipher that gives back what it sealed, and
/// for a receiver whose greatest packet number lets it find the number from
/// the bytes sent. `head` is the header as written, its low two bits free
/// for the length of the packet number.
pub proof fn lemma_packet_roundtrip(
    keys: KeysView,
    head: Seq<u8>,
    long: bool,
    pn: u64,
    pn_len: int,
    plain: Seq<u8>,
    largest: u64,
)
    requires
        head.len() >= 1,
        head[0] % 4 == 0,
        pn_len == 1 || pn_len == 2 || pn_len == 4,
        pn_len + plain.len() >= 4,
        sealed_packet(keys, head, long, pn, pn_len, plain).is_some(),
        ({
            let h = full_header(head, long, pn, pn_len, plain.len() as int);
            keys.sealed(pn, h, plain) matches Some(c)
                ==> c.len() == plain.len() + 16 && keys.opened(
                pn,
                h,
                c,
            ) == Some(plain) && (keys.mask(c.subrange(4 - pn_len, 20 - pn_len)) matches Some(m)
                ==> m.len() == 5)
        }),
        spec_decode_pkt_num(largest, (pn as int % pn_window(pn_len)) as u64, pn_len) == Ok::<
            u64,
            Error,
        >(pn),
    ensures
        ({
            let p = sealed_packet(keys, head, long, pn, pn_len, plain).unwrap();
            let h = full_header(head, long, pn, pn_len, plain.len() as int);
            opened_packet(
                keys,
                p,
                h.len() - pn_len,
                pn_len + plain.len() + 16,
                largest,
                long,
            ) == Ok::<(u64, int, Seq<u8>), Error>((pn, pn_len, plain))
        }),
{
    reveal(sealed_packet);
    reveal(opened_packet);
    let h = full_header(head, long, pn, pn_len, plain.len() as int);
    let c = keys.sealed(pn, h, plain).unwrap();
    let m = keys.mask(c.subrange(4 - pn_len, 20 - pn_len)).unwrap();
    let pn_off = h.len() - pn_len;
    lemma_full_header(head, long, pn, pn_len, plain.len() as int);
    lemma_unmask(h, c, m, pn_len, long);
    lemma_truncated(pn, pn_len, h, pn_off);
}


/// Where `a` followed by `b` stands at `i`, `a` stands at `i` and `b`
/// behind it.
proof fn lemma_split(s: Seq<u8>, i: int, a: Seq<u8>, b: Seq<u8>)
    requires
        0 <= i,
        i + a.len() + b.len() <= s.len(),
        s.subrange(i, i + a.len() + b.len()) == a + b,
    ensures
        s.subrange(i, i + a.len()) == a,
        s.subrange(i + a.len(), i + a.len() + b.len()) == b,
{
    let w = s.subrange(i, i + a.len() + b.len());
    assert forall|m: int| 0 <= m < a.len() implies #[trigger] s.subrange(i, i + a.len())[m]
        == a[m] by {
        assert(w[m] == (a + b)[m]);
    }
    assert forall|m: int| 0 <= m < b.len() implies #[trigger] s.subrange(
        i + a.len(),
        i + a.len() + b.len(),
    )[m] == b[m] by {
        assert(w[a.len() + m] == (a + b)[a.len() + m]);
    }
    assert(s.subrange(i, i + a.len()) =~= a);
    assert(s.subrange(i + a.len(), i + a.len() + b.len()) =~= b);
}

/// Where one byte stands at `i`, it is the byte at `i`.
proof fn lemma_byte(s: Seq<u8>, i: int, b: u8)
    requires
        0 <= i < s.len(),
        s.subrange(i, i + 1) == seq![b],
    ensures
        s[i] == b,
{
    assert(s.subrange(i, i + 1)[0] == s[i]);
}

/// A variable-length integer is read where it stands.
pub proof fn lemma_varint(s: Seq<u8>, i: int, v: u64)
    requires
        v <= MAX_VARINT,
        0 <= i,
        i + varint_bytes(v).len() <= s.len(),
        s.subrange(i, i + varint_bytes(v).len()) == varint_bytes(v),
    ensures
        varint_at(s, i) == Some((v, i + varint_bytes(v).len())),
        1 <= varint_bytes(v).len() <= 8,
{
    assert(varint_bytes(v).len() == varint_len(v));
    lemma_varint_roundtrip_at(v, s, i);
}

/// A byte string with its length before it is read where it stands.
proof fn lemma_sized(s: Seq<u8>, i: int, d: Seq<u8>)
    requires
        d.len() <= MAX_VARINT,
        0 <= i,
        i + sized_bytes(d).len() <= s.len(),
        s.subrange(i, i + sized_bytes(d).len()) == sized_bytes(d),
    ensures
        sized_at(s, i) == Some((d, i + sized_bytes(d).len())),
{
    let v = varint_bytes(d.len() as u64);
    lemma_split(s, i, v, d);
    lemma_varint(s, i, d.len() as u64);
}

/// The frame as a reader gets it: a CRYPTO frame never marks the end of
/// its stream.
pub open spec fn as_read(f: FrameView) -> FrameView {
    match f {
        FrameView::Crypto { data } => FrameView::Crypto { data: data.plain() },
        _ => f,
    }
}

/// The fields of a CONNECTION_CLOSE frame are read as they were written.
proof fn lemma_connection_close(s: Seq<u8>, i: int, error_code: u16, frame_type: u64,
    reason: Seq<u8>)
    requires
        frame_type <= MAX_VARINT,
        reason.len() <= MAX_VARINT,
        0 <= i,
        ({
            let e = u16_bytes(error_code) + varint_bytes(frame_type) + sized_bytes(reason);
            i + e.len() <= s.len() && s.subrange(i, i + e.len()) == e
        }),
    ensures
        close_at(s, i, 0x02) == Ok::<(FrameView, int), Error>(
            (
                FrameView::ConnectionClose { error_code, frame_type, reason },
                i + (u16_bytes(error_code) + varint_bytes(frame_type) + sized_bytes(reason)).len(),
            ),
        ),
{
    let a = u16_bytes(error_code);
    let b = varint_bytes(frame_type);
    let c = sized_bytes(reason);
    lemma_split(s, i, a + b, c);
    lemma_split(s, i, a, b);
    lemma_u16_roundtrip(error_code, s, i);
    lemma_varint(s, i + 2, frame_type);
    lemma_sized(s, i + 2 + b.len(), reason);
}

/// The fields of an APPLICATION_CLOSE frame are read as they were written.
proof fn lemma_application_close(s: Seq<u8>, i: int, error_code: u16, reason: Seq<u8>)
    requires
        reason.len() <= MAX_VARINT,
        0 <= i,
        ({
            let e = u16_bytes(error_code) + sized_bytes(reason);
            i + e.len() <= s.len() && s.subrange(i, i + e.len()) == e
        }),
    ensures
        close_at(s, i, 0x03) == Ok::<(FrameView, int), Error>(
            (
                FrameView::ApplicationClose { error_code, reason },
                i + (u16_bytes(error_code) + sized_bytes(reason)).len(),
            ),
        ),
{
    let a = u16_bytes(error_code);
    let c = sized_bytes(reason);
    lemma_split(s, i, a, c);
    lemma_u16_roundtrip(error_code, s, i);
    lemma_sized(s, i + 2, reason);
}

/// Two variable-length integers, one behind the other, are read as they
/// were written.
proof fn lemma_two_varints(s: Seq<u8>, i: int, a: u64, b: u64)
    requires
        a <= MAX_VARINT,
        b <= MAX_VARINT,
        0 <= i,
        ({
            let e = varint_bytes(a) + varint_bytes(b);
            i + e.len() <= s.len() && s.subrange(i, i + e.len()) == e
        }),
    ensures
        varint_at(s, i) == Some((a, i + varint_bytes(a).len())),
        varint_at(s, i + varint_bytes(a).len()) == Some(
            (b, i + (varint_bytes(a) + varint_bytes(b)).len()),
        ),
{
    lemma_split(s, i, varint_bytes(a), varint_bytes(b));
    lemma_varint(s, i, a);
    lemma_varint(s, i + varint_bytes(a).len(), b);
}

/// The fields of a NEW_CONNECTION_ID frame are read as they were written.
proof fn lemma_new_conn_id(s: Seq<u8>, i: int, seq_num: u64, conn_id: Seq<u8>, reset_token: Seq<u8>)
    requires
        seq_num <= MAX_VARINT,
        conn_id.len() <= 255,
        reset_token.len() == 16,
        0 <= i,
        ({
            let e = varint_bytes(seq_num) + seq![conn_id.len() as u8] + conn_id + reset_token;
            i + e.len() <= s.len() && s.subrange(i, i + e.len()) == e
        }),
    ensures
        new_conn_id_at(s, i) == Ok::<(FrameView, int), Error>(
            (
                FrameView::NewConnectionId { seq_num, conn_id, reset_token },
                i + (varint_bytes(seq_num) + seq![conn_id.len() as u8] + conn_id
                    + reset_token).len(),
            ),
        ),
{
    let a = varint_bytes(seq_num);
    let b = seq![conn_id.len() as u8];
    lemma_split(s, i, a + b + conn_id, reset_token);
    lemma_split(s, i, a + b, conn_id);
    lemma_split(s, i, a, b);
    lemma_varint(s, i, seq_num);
    lemma_byte(s, i + a.len(), conn_id.len() as u8);
}

/// The chunk of a CRYPTO or STREAM frame is read as it was written.
proof fn lemma_chunk(s: Seq<u8>, i: int, c: Chunk)
    requires
        0 <= c.off,
        c.end() <= MAX_OFFSET,
        0 <= i,
        i + sized_bytes(c.data).len() <= s.len(),
        s.subrange(i, i + sized_bytes(c.data).len()) == sized_bytes(c.data),
    ensures
        chunk_at(s, i, c.off as u64, true, c.fin) == Ok::<(Chunk, int), Error>(
            (c, i + sized_bytes(c.data).len()),
        ),
{
    lemma_sized(s, i, c.data);
}

/// The fields of a CRYPTO frame are read as they were written.
proof fn lemma_crypto(s: Seq<u8>, i: int, c: Chunk)
    requires
        0 <= c.off,
        c.end() <= MAX_OFFSET,
        0 <= i,
        ({
            let e = varint_bytes(c.off as u64) + sized_bytes(c.data);
            i + e.len() <= s.len() && s.subrange(i, i + e.len()) == e
        }),
    ensures
        token_or_crypto_at(s, i, 0x18) == Ok::<(FrameView, int), Error>(
            (
                FrameView::Crypto { data: c.plain() },
                i + (varint_bytes(c.off as u64) + sized_bytes(c.data)).len(),
            ),
        ),
{
    let a = varint_bytes(c.off as u64);
    lemma_split(s, i, a, sized_bytes(c.data));
    lemma_varint(s, i, c.off as u64);
    lemma_chunk(s, i + a.len(), c.plain());
}

/// The fields of a STREAM frame are read as they were written.
proof fn lemma_stream(s: Seq<u8>, i: int, stream_id: u64, c: Chunk)
    requires
        stream_id <= MAX_VARINT,
        0 <= c.off,
        c.end() <= MAX_OFFSET,
        0 <= i,
        ({
            let e = varint_bytes(stream_id) + varint_bytes(c.off as u64) + sized_bytes(c.data);
            i + e.len() <= s.len() && s.subrange(i, i + e.len()) == e
        }),
    ensures
        stream_at(
            s,
            i,
            if c.fin {
                0x17u8
            } else {
                0x16u8
            },
        ) == Ok::<(FrameView, int), Error>(
            (
                FrameView::Stream { stream_id, data: c },
                i + (varint_bytes(stream_id) + varint_bytes(c.off as u64) + sized_bytes(
                    c.data,
                )).len(),
            ),
        ),
{
    let a = varint_bytes(stream_id);
    let b = varint_bytes(c.off as u64);
    lemma_split(s, i, a + b, sized_bytes(c.data));
    lemma_two_varints(s, i, stream_id, c.off as u64);
    lemma_chunk(s, i + a.len() + b.len(), c);
}

/// The ranges that an ACK frame lists below its first are read as they
/// were written: the ranges `r[0]` to `r[k]`, listed from the highest down,
/// are put before those that were read before them.
#[verifier::rlimit(50)]
#[verifier::spinoff_prover]
proof fn lemma_ack_tail(s: Seq<u8>, i: int, r: Seq<(u64, u64)>, k: int)
    requires
        canonical(r),
        r.len() > 0,
        r.last().1 <= MAX_VARINT,
        -1 <= k <= r.len() - 2,
        0 <= i,
        i + ack_tail(r, k).len() <= s.len(),
        s.subrange(i, i + ack_tail(r, k).len()) == ack_tail(r, k),
    ensures
        ack_ranges_at(s, i, k + 1, r[k + 1].0, r.skip(k + 1)) == Ok::<
            (Seq<(u64, u64)>, int),
            Error,
        >((r, i + ack_tail(r, k).len())),
    decreases k + 1,
{
    if k < 0 {
        assert(r.skip(0) =~= r);
    } else {
        assert(r[k].1 + 1 < r[k + 1].0);
        assert(r[k].0 <= r[k].1);
        assert(r[k + 1].0 <= r[k + 1].1);
        if k + 1 < r.len() - 1 {
            assert(r[k + 1].1 + 1 < r[r.len() - 1].0);
            assert(r[r.len() - 1].0 <= r[r.len() - 1].1);
        }
        let gap = (r[k + 1].0 - r[k].1 - 2) as u64;
        let len = (r[k].1 - r[k].0) as u64;
        let a = varint_bytes(gap);
        let b = varint_bytes(len);
        let rest = ack_tail(r, k - 1);
        assert(ack_tail(r, k) == a + b + rest);
        lemma_split(s, i, a + b, rest);
        lemma_two_varints(s, i, gap, len);
        lemma_ack_tail(s, i + a.len() + b.len(), r, k - 1);
        assert(seq![(r[k].0, r[k].1)] + r.skip(k + 1) =~= r.skip(k));
    }
}

/// The fields of an ACK frame are read as they were written.
proof fn lemma_ack(s: Seq<u8>, i: int, ack_delay: u64, r: Seq<(u64, u64)>)
    requires
        ack_delay <= MAX_VARINT,
        canonical(r),
        0 < r.len() <= MAX_VARINT + 1,
        r.last().1 <= MAX_VARINT,
        0 <= i,
        ({
            let e = varint_bytes(r.last().1) + varint_bytes(ack_delay) + varint_bytes(
                (r.len() - 1) as u64,
            ) + varint_bytes((r.last().1 - r.last().0) as u64) + ack_tail(r, r.len() - 2);
            i + e.len() <= s.len() && s.subrange(i, i + e.len()) == e
        }),
    ensures
        ack_at(s, i) == Ok::<(FrameView, int), Error>(
            (
                FrameView::Ack { ack_delay, ranges: r },
                i + (varint_bytes(r.last().1) + varint_bytes(ack_delay) + varint_bytes(
                    (r.len() - 1) as u64,
                ) + varint_bytes((r.last().1 - r.last().0) as u64) + ack_tail(
                    r,
                    r.len() - 2,
                )).len(),
            ),
        ),
{
    let top = r.last();
    assert(top.0 <= top.1);
    let a = varint_bytes(top.1);
    let b = varint_bytes(ack_delay);
    let c = varint_bytes((r.len() - 1) as u64);
    let d = varint_bytes((top.1 - top.0) as u64);
    let t = ack_tail(r, r.len() - 2);
    lemma_split(s, i, a + b + c + d, t);
    assert(a + b + c + d =~= (a + b) + (c + d));
    lemma_split(s, i, a + b, c + d);
    lemma_two_varints(s, i, top.1, ack_delay);
    lemma_two_varints(s, i + a.len() + b.len(), (r.len() - 1) as u64, (top.1 - top.0) as u64);
    lemma_ack_tail(s, i + a.len() + b.len() + c.len() + d.len(), r, r.len() - 2);
    assert(seq![(top.0, top.1)] =~= r.skip(r.len() - 1));
}

/// A run of zero bytes that ends at the end of the buffer or before a byte
/// that is not zero is counted as it was written.
pub proof fn lemma_zeros_run(s: Seq<u8>, i: int, n: int)
    requires
        0 <= i,
        0 <= n,
        i + n <= s.len(),
        s.subrange(i, i + n) == zeros(n),
        i + n == s.len() || s[i + n] != 0,
    ensures
        zeros_at(s, i) == n,
    decreases n,
{
    if n > 0 {
        assert(s[i] == s.subrange(i, i + n)[0]);
        assert(s.subrange(i + 1, i + n) =~= zeros(n - 1)) by {
            assert forall|m: int| 0 <= m < n - 1 implies #[trigger] s.subrange(i + 1, i + n)[m]
                == 0u8 by {
                assert(s.subrange(i, i + n)[m + 1] == zeros(n)[m + 1]);
            }
        }
        lemma_zeros_run(s, i + 1, n - 1);
    }
}

/// A frame that is not padding starts with a byte that is not zero.
pub proof fn lemma_first_byte(f: FrameView)
    requires
        !(f is Padding),
    ensures
        f.bytes().len() > 0,
        f.bytes()[0] != 0,
{
}

/// The frame `f`, a CONNECTION_CLOSE frame, is read as it was written.
proof fn lemma_read_connection_close(s: Seq<u8>, i: int, f: FrameView)
    requires
        f is ConnectionClose,
        f.wf(),
        0 <= i,
        i + f.bytes().len() <= s.len(),
        s.subrange(i, i + f.bytes().len()) == f.bytes(),
    ensures
        frame_at(s, i) == Ok::<(FrameView, int), Error>((f, i + f.bytes().len())),
{
    match f {
        FrameView::ConnectionClose { error_code, frame_type, reason } => {
            let rest = u16_bytes(error_code) + varint_bytes(frame_type) + sized_bytes(reason);
            assert(f.bytes() =~= seq![0x02u8] + rest);
            lemma_split(s, i, seq![0x02u8], rest);
            lemma_byte(s, i, 0x02u8);
            lemma_connection_close(s, i + 1, error_code, frame_type, reason);
        },
        _ => {},
    }
}

/// The frame `f`, an APPLICATION_CLOSE frame, is read as it was written.
proof fn lemma_read_application_close(s: Seq<u8>, i: int, f: FrameView)
    requires
        f is ApplicationClose,
        f.wf(),
        0 <= i,
        i + f.bytes().len() <= s.len(),
        s.subrange(i, i + f.bytes().len()) == f.bytes(),
    ensures
        frame_at(s, i) == Ok::<(FrameView, int), Error>((f, i + f.bytes().len())),
{
    match f {
        FrameView::ApplicationClose { error_code, reason } => {
            let rest = u16_bytes(error_code) + sized_bytes(reason);
            assert(f.bytes() =~= seq![0x03u8] + rest);
            lemma_split(s, i, seq![0x03u8], rest);
            lemma_byte(s, i, 0x03u8);
            lemma_application_close(s, i + 1, error_code, reason);
        },
        _ => {},
    }
}

/// The frame `f`, a MAX_DATA frame, is read as it was written.
proof fn lemma_read_max_data(s: Seq<u8>, i: int, f: FrameView)
    requires
        f is MaxData,
        f.wf(),
        0 <= i,
        i + f.bytes().len() <= s.len(),
        s.subrange(i, i + f.bytes().len()) == f.bytes(),
    ensures
        frame_at(s, i) == Ok::<(FrameView, int), Error>((f, i + f.bytes().len())),
{
    match f {
        FrameView::MaxData { max } => {
            let rest = varint_bytes(max);
            assert(f.bytes() =~= seq![0x04u8] + rest);
            lemma_split(s, i, seq![0x04u8], rest);
            lemma_byte(s, i, 0x04u8);
            lemma_varint(s, i + 1, max);
        },
        _ => {},
    }
}

/// The frame `f`, a MAX_STREAM_DATA frame, is read as it was written.
proof fn lemma_read_max_stream_data(s: Seq<u8>, i: int, f: FrameView)
    requires
        f is MaxStreamData,
        f.wf(),
        0 <= i,
        i + f.bytes().len() <= s.len(),
        s.subrange(i, i + f.bytes().len()) == f.bytes(),
    ensures
        frame_at(s, i) == Ok::<(FrameView, int), Error>((f, i + f.bytes().len())),
{
    match f {
        FrameView::MaxStreamData { stream_id, max } => {
            let rest = varint_bytes(stream_id) + varint_bytes(max);
            assert(f.bytes() =~= seq![0x05u8] + rest);
            lemma_split(s, i, seq![0x05u8], rest);
            lemma_byte(s, i, 0x05u8);
            lemma_two_varints(s, i + 1, stream_id, max);
        },
        _ => {},
    }
}

/// The frame `f`, a MAX_STREAM_ID frame, is read as it was written.
proof fn lemma_read_max_stream_id(s: Seq<u8>, i: int, f: FrameView)
    requires
        f is MaxStreamId,
        f.wf(),
        0 <= i,
        i + f.bytes().len() <= s.len(),
        s.subrange(i, i + f.bytes().len()) == f.bytes(),
    ensures
        frame_at(s, i) == Ok::<(FrameView, int), Error>((f, i + f.bytes().len())),
{
    match f {
        FrameView::MaxStreamId { max } => {
            let rest = varint_bytes(max);
            assert(f.bytes() =~= seq![0x06u8] + rest);
            lemma_split(s, i, seq![0x06u8], rest);
            lemma_byte(s, i, 0x06u8);
            lemma_varint(s, i + 1, max);
        },
        _ => {},
    }
}

/// The frame `f`, a NEW_CONNECTION_ID frame, is read as it was written.
proof fn lemma_read_new_connection_id(s: Seq<u8>, i: int, f: FrameView)
    requires
        f is NewConnectionId,
        f.wf(),
        0 <= i,
        i + f.bytes().len() <= s.len(),
        s.subrange(i, i + f.bytes().len()) == f.bytes(),
    ensures
        frame_at(s, i) == Ok::<(FrameView, int), Error>((f, i + f.bytes().len())),
{
    match f {
        FrameView::NewConnectionId { seq_num, conn_id, reset_token } => {
            let rest = varint_bytes(seq_num) + seq![conn_id.len() as u8] + conn_id + reset_token;
            assert(f.bytes() =~= seq![0x0bu8] + rest);
            lemma_split(s, i, seq![0x0bu8], rest);
            lemma_byte(s, i, 0x0bu8);
            lemma_new_conn_id(s, i + 1, seq_num, conn_id, reset_token);
        },
        _ => {},
    }
}

/// The frame `f`, a NEW_TOKEN frame, is read as it was written.
proof fn lemma_read_new_token(s: Seq<u8>, i: int, f: FrameView)
    requires
        f is NewToken,
        f.wf(),
        0 <= i,
        i + f.bytes().len() <= s.len(),
        s.subrange(i, i + f.bytes().len()) == f.bytes(),
    ensures
        frame_at(s, i) == Ok::<(FrameView, int), Error>((f, i + f.bytes().len())),
{
    match f {
        FrameView::NewToken { token } => {
            let rest = sized_bytes(token);
            assert(f.bytes() =~= seq![0x19u8] + rest);
            lemma_split(s, i, seq![0x19u8], rest);
            lemma_byte(s, i, 0x19u8);
            lemma_sized(s, i + 1, token);
        },
        _ => {},
    }
}

/// The frame `f`, a CRYPTO frame, is read as it was written.
proof fn lemma_read_crypto(s: Seq<u8>, i: int, f: FrameView)
    requires
        f is Crypto,
        f.wf(),
        0 <= i,
        i + f.bytes().len() <= s.len(),
        s.subrange(i, i + f.bytes().len()) == f.bytes(),
    ensures
        frame_at(s, i) == Ok::<(FrameView, int), Error>((as_read(f), i + f.bytes().len())),
{
    match f {
        FrameView::Crypto { data } => {
            let rest = varint_bytes(data.off as u64) + sized_bytes(data.data);
            assert(f.bytes() =~= seq![0x18u8] + rest);
            lemma_split(s, i, seq![0x18u8], rest);
            lemma_byte(s, i, 0x18u8);
            lemma_crypto(s, i + 1, data);
        },
        _ => {},
    }
}

/// The frame `f`, an ACK frame, is read as it was written.
proof fn lemma_read_ack(s: Seq<u8>, i: int, f: FrameView)
    requires
        f is Ack,
        f.wf(),
        0 <= i,
        i + f.bytes().len() <= s.len(),
        s.subrange(i, i + f.bytes().len()) == f.bytes(),
    ensures
        frame_at(s, i) == Ok::<(FrameView, int), Error>((f, i + f.bytes().len())),
{
    match f {
        FrameView::Ack { ack_delay, ranges } => {
            let top = ranges.last();
            let rest = varint_bytes(top.1) + varint_bytes(ack_delay) + varint_bytes(
                (ranges.len() - 1) as u64,
            ) + varint_bytes((top.1 - top.0) as u64) + ack_tail(ranges, ranges.len() - 2);
            assert(f.bytes() =~= seq![0x0du8] + rest);
            lemma_split(s, i, seq![0x0du8], rest);
            lemma_byte(s, i, 0x0d);
            lemma_ack(s, i + 1, ack_delay, ranges);
        },
        _ => {},
    }
}

/// The frame `f`, a STREAM frame, is read as it was written.
proof fn lemma_read_stream(s: Seq<u8>, i: int, f: FrameView)
    requires
        f is Stream,
        f.wf(),
        0 <= i,
        i + f.bytes().len() <= s.len(),
        s.subrange(i, i + f.bytes().len()) == f.bytes(),
    ensures
        frame_at(s, i) == Ok::<(FrameView, int), Error>((f, i + f.bytes().len())),
{
    match f {
        FrameView::Stream { stream_id, data } => {
            let ty = if data.fin {
                0x17u8
            } else {
                0x16u8
            };
            let rest = varint_bytes(stream_id) + varint_bytes(data.off as u64) + sized_bytes(
                data.data,
            );
            assert(f.bytes() =~= seq![ty] + rest);
            lemma_split(s, i, seq![ty], rest);
            lemma_byte(s, i, ty);
            lemma_stream(s, i + 1, stream_id, data);
        },
        _ => {},
    }
}

/// A frame is read as it was written: wherever the bytes of `f` stand in
/// `s`, the frame read there is `f`, and reading stops just behind it.
/// Padding is read as one frame as far as zero bytes reach, so that padding
/// is read as it was written where it is not empty and ends at the end of
/// `s` or before a byte that is not zero. A CRYPTO frame is read without
/// the mark of its stream's end.
pub proof fn lemma_frame_roundtrip(f: FrameView, s: Seq<u8>, i: int)
    requires
        f.wf(),
        0 <= i,
        i + f.bytes().len() <= s.len(),
        s.subrange(i, i + f.bytes().len()) == f.bytes(),
        f matches FrameView::Padding { len } ==> len > 0 && (i + len == s.len() || s[i + len]
            != 0),
    ensures
        frame_at(s, i) == Ok::<(FrameView, int), Error>((as_read(f), i + f.bytes().len())),
{
    match f {
        FrameView::Padding { len } => {
            assert(s[i] == s.subrange(i, i + len)[0]);
            lemma_zeros_run(s, i, len);
        },
        FrameView::ConnectionClose { .. } => lemma_read_connection_close(s, i, f),
        FrameView::ApplicationClose { .. } => lemma_read_application_close(s, i, f),
        FrameView::MaxData { .. } => lemma_read_max_data(s, i, f),
        FrameView::MaxStreamData { .. } => lemma_read_max_stream_data(s, i, f),
        FrameView::MaxStreamId { .. } => lemma_read_max_stream_id(s, i, f),
        FrameView::Ping => lemma_byte(s, i, 0x07),
        FrameView::NewConnectionId { .. } => lemma_read_new_connection_id(s, i, f),
        FrameView::Ack { .. } => lemma_read_ack(s, i, f),
        FrameView::NewToken { .. } => lemma_read_new_token(s, i, f),
        FrameView::Crypto { .. } => lemma_read_crypto(s, i, f),
        FrameView::Stream { .. } => lemma_read_stream(s, i, f),
    }
}

/// The frames as a reader gets them.
pub open spec fn as_read_all(fs: Seq<FrameView>) -> Seq<FrameView> {
    Seq::new(fs.len(), |k: int| as_read(fs[k]))
}

/// Whether the frames can be told apart on the wire: each can be written,
/// no padding is empty, and no padding follows padding.
pub open spec fn separable(fs: Seq<FrameView>) -> bool {
    &&& forall|k: int|
        0 <= k < fs.len() ==> (#[trigger] fs[k]).wf() && (fs[k] matches FrameView::Padding { len }
            ==> len > 0)
    &&& forall|k: int, j: int|
        0 <= k < fs.len() && j == k + 1 && j < fs.len() && (#[trigger] fs[k]) is Padding ==> !(
        #[trigger] fs[j] is Padding)
}

/// The bytes of the first `k` frames are the start of the bytes of all
/// frames.
proof fn lemma_frames_prefix(fs: Seq<FrameView>, k: int)
    requires
        0 <= k <= fs.len(),
    ensures
        frames_bytes(fs.take(k)).len() <= frames_bytes(fs).len(),
        frames_bytes(fs).take(frames_bytes(fs.take(k)).len() as int) == frames_bytes(fs.take(k)),
    decreases fs.len() - k,
{
    let all = frames_bytes(fs);
    let part = frames_bytes(fs.take(k));
    if k == fs.len() {
        assert(fs.take(k) =~= fs);
        assert(all.take(all.len() as int) =~= all);
    } else {
        lemma_frames_prefix(fs, k + 1);
        assert(fs.take(k + 1) =~= fs.take(k).push(fs[k]));
        lemma_frames_bytes_push(fs.take(k), fs[k]);
        let next = frames_bytes(fs.take(k + 1));
        assert(next == part + fs[k].bytes());
        assert(all.take(part.len() as int) =~= next.take(part.len() as int));
        assert(next.take(part.len() as int) =~= part);
    }
}

/// The `k`-th frame stands in the bytes of all frames behind the first
/// `k`.
proof fn lemma_frame_in_place(fs: Seq<FrameView>, k: int)
    requires
        0 <= k < fs.len(),
    ensures
        ({
            let all = frames_bytes(fs);
            let at = frames_bytes(fs.take(k)).len() as int;
            let e = fs[k].bytes();
            &&& at + e.len() <= all.len()
            &&& all.subrange(at, at + e.len()) == e
            &&& frames_bytes(fs.take(k + 1)).len() == at + e.len()
        }),
{
    let all = frames_bytes(fs);
    let part = frames_bytes(fs.take(k));
    let e = fs[k].bytes();
    lemma_frames_prefix(fs, k + 1);
    assert(fs.take(k + 1) =~= fs.take(k).push(fs[k]));
    lemma_frames_bytes_push(fs.take(k), fs[k]);
    let next = frames_bytes(fs.take(k + 1));
    assert(all.subrange(part.len() as int, (part.len() + e.len()) as int) =~= e) by {
        assert forall|m: int| 0 <= m < e.len() implies #[trigger] all.subrange(
            part.len() as int,
            (part.len() + e.len()) as int,
        )[m] == e[m] by {
            assert(all.take(next.len() as int)[part.len() + m] == next[part.len() + m]);
        }
    }
}

/// The frames from the `k`-th on are read as they were written.
#[verifier::rlimit(50)]
#[verifier::spinoff_prover]
proof fn lemma_frames_from(fs: Seq<FrameView>, k: int)
    requires
        separable(fs),
        0 <= k <= fs.len(),
    ensures
        frames_at(frames_bytes(fs), frames_bytes(fs.take(k)).len() as int) == Ok::<
            Seq<FrameView>,
            Error,
        >(as_read_all(fs).skip(k)),
    decreases fs.len() - k,
{
    reveal_with_fuel(frames_at, 2);
    let all = frames_bytes(fs);
    let at = frames_bytes(fs.take(k)).len() as int;
    if k == fs.len() {
        assert(fs.take(k) =~= fs);
        assert(as_read_all(fs).skip(k) =~= Seq::<FrameView>::empty());
    } else {
        let f = fs[k];
        lemma_frames_from(fs, k + 1);
        lemma_frame_in_place(fs, k);
        let next = at + f.bytes().len();
        if f is Padding {
            if k + 1 < fs.len() {
                lemma_frame_in_place(fs, k + 1);
                assert(!(fs[k + 1] is Padding));
                lemma_first_byte(fs[k + 1]);
                let e = fs[k + 1].bytes();
                assert(all.subrange(next, next + e.len())[0] == e[0]);
            } else {
                assert(fs.take(k + 1) =~= fs);
            }
        } else {
            lemma_first_byte(f);
        }
        lemma_frame_roundtrip(f, all, at);
        assert(seq![as_read(f)] + as_read_all(fs).skip(k + 1) =~= as_read_all(fs).skip(k));
    }
}

/// Frames are read as they were written: the bytes of frames that can be
/// told apart hold these frames, in their order, and nothing else.
pub proof fn lemma_frames_roundtrip(fs: Seq<FrameView>)
    requires
        separable(fs),
    ensures
        frames_at(frames_bytes(fs), 0) == Ok::<Seq<FrameView>, Error>(as_read_all(fs)),
{
    lemma_frames_from(fs, 0);
    assert(fs.take(0) =~= Seq::<FrameView>::empty());
    assert(as_read_all(fs).skip(0) =~= as_read_all(fs));
}

/// A long header is read as it was written, whatever protection made of
/// the low bits of its first byte: where `s` starts with the header `h` as
/// written, but for these bits, the header read from `s` is `h`, with the
/// first byte of `s` as its flags. No token is written, so none is read.
pub proof fn lemma_long_header_roundtrip(h: HeaderView, s: Seq<u8>)
    requires
        h.version != 0,
        long_header_bytes(h) matches Some(e) && s.len() >= e.len() && s[0] / 16 == e[0] / 16
            && s.subrange(1, e.len() as int) == e.subrange(1, e.len() as int),
    ensures
        long_header(s) == Ok::<(HeaderView, int), Error>(
            (HeaderView { flags: s[0], token: None, ..h },
                long_header_bytes(h).unwrap().len() as int),
        ),
{
    let e = long_header_bytes(h).unwrap();
    let first = long_first_byte(h.ty).unwrap();
    let dn = h.dcid.len() as int;
    let sn = h.scid.len() as int;
    let cil = (cid_nibble(dn) * 16 + cid_nibble(sn)) as u8;
    let head = seq![first] + u32_bytes(h.version) + seq![cil] + h.dcid + h.scid;
    assert(u32_bytes(h.version).len() == 4);
    assert(head.len() == 6 + dn + sn);
    assert(e.len() >= head.len());
    assert forall|k: int| 1 <= k < e.len() implies s[k] == e[k] by {
        assert(s.subrange(1, e.len() as int)[k - 1] == e.subrange(1, e.len() as int)[k - 1]);
    }
    assert forall|k: int| 0 <= k < head.len() implies e[k] == head[k] by {}
    assert(e[0] == first);
    assert(s.subrange(1, 5) =~= u32_bytes(h.version)) by {
        assert forall|k: int| 0 <= k < 4 implies #[trigger] s.subrange(1, 5)[k] == u32_bytes(
            h.version,
        )[k] by {
            assert(s[k + 1] == head[k + 1]);
        }
    }
    lemma_u32_roundtrip(h.version, s, 1);
    assert(s[5] == cil) by {
        assert(s[5] == head[5]);
    }
    assert(cil as int / 16 == cid_nibble(dn));
    assert(cil as int % 16 == cid_nibble(sn));
    assert(cid_len(cil as int / 16) == dn);
    assert(cid_len(cil as int % 16) == sn);
    assert(s.subrange(6, 6 + dn) =~= h.dcid) by {
        assert forall|k: int| 0 <= k < dn implies #[trigger] s.subrange(6, 6 + dn)[k]
            == h.dcid[k] by {
            assert(s[6 + k] == head[6 + k]);
        }
    }
    assert(s.subrange(6 + dn, 6 + dn + sn) =~= h.scid) by {
        assert forall|k: int| 0 <= k < sn implies #[trigger] s.subrange(6 + dn, 6 + dn + sn)[k]
            == h.scid[k] by {
            assert(s[6 + dn + k] == head[6 + dn + k]);
        }
    }
    assert(long_type(s[0], h.version) == Ok::<Type, Error>(h.ty));
    if h.ty == Type::Initial {
        assert(e == head + seq![0u8]);
        assert(s[6 + dn + sn] == e[6 + dn + sn]);
        assert(s[6 + dn + sn] == 0);
        assert(varint_at(s, 6 + dn + sn) == Some((0u64, 7 + dn + sn)));
        assert(s.subrange(7 + dn + sn, 7 + dn + sn) =~= Seq::<u8>::empty());
    }
}

/// A short header is read as it was written, whatever protection made of
/// the low bits of its first byte.
pub proof fn lemma_short_header_roundtrip(h: HeaderView, s: Seq<u8>)
    requires
        s.len() >= short_header_bytes(h).len(),
        s[0] < 0x80,
        s.subrange(1, short_header_bytes(h).len() as int) == short_header_bytes(h).subrange(
            1,
            short_header_bytes(h).len() as int,
        ),
    ensures
        short_header(s, h.dcid.len() as int) == Ok::<(HeaderView, int), Error>(
            (
                HeaderView {
                    ty: Type::Application,
                    version: 0,
                    flags: s[0],
                    dcid: h.dcid,
                    scid: Seq::empty(),
                    token: None,
                },
                1 + h.dcid.len() as int,
            ),
        ),
{
    let e = short_header_bytes(h);
    let n = h.dcid.len() as int;
    assert(s.subrange(1, 1 + n) =~= h.dcid) by {
        assert forall|k: int| 0 <= k < n
            implies #[trigger] s.subrange(1, 1 + n)[k] == h.dcid[k] by {
            assert(s.subrange(1, e.len() as int)[k] == e.subrange(1, e.len() as int)[k]);
        }
    }
}

} // verus!
