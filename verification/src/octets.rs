//! Big-endian integers, variable-length integers and a bounds-checked cursor
//! over a byte buffer.

use vstd::prelude::*;
use crate::Error;

verus! {

/// The largest value a variable-length integer can carry: 2^62 - 1.
pub const MAX_VARINT: u64 = 0x3fff_ffff_ffff_ffff;

/// The two bytes at `i`, read in network byte order.
pub open spec fn be16(s: Seq<u8>, i: int) -> int {
    s[i] as int * 0x100 + s[i + 1] as int
}

/// The four bytes at `i`, read in network byte order.
pub open spec fn be32(s: Seq<u8>, i: int) -> int {
    be16(s, i) * 0x1_0000 + be16(s, i + 2)
}

/// The eight bytes at `i`, read in network byte order.
pub open spec fn be64(s: Seq<u8>, i: int) -> int {
    be32(s, i) * 0x1_0000_0000 + be32(s, i + 4)
}

/// `v` in network byte order.
pub open spec fn u16_bytes(v: u16) -> Seq<u8> {
    seq![(v / 0x100) as u8, (v % 0x100) as u8]
}

/// `v` in network byte order.
pub open spec fn u32_bytes(v: u32) -> Seq<u8> {
    u16_bytes((v / 0x1_0000) as u16) + u16_bytes((v % 0x1_0000) as u16)
}

/// `v` in network byte order.
pub open spec fn u64_bytes(v: u64) -> Seq<u8> {
    u32_bytes((v / 0x1_0000_0000) as u32) + u32_bytes((v % 0x1_0000_0000) as u32)
}

/// The number of bytes in the variable-length encoding of `v`.
pub open spec fn varint_len(v: u64) -> int {
    if v < 0x40 {
        1
    } else if v < 0x4000 {
        2
    } else if v < 0x4000_0000 {
        4
    } else {
        8
    }
}

/// The variable-length encoding of `v`: the shortest of the 1, 2, 4 and 8
/// byte forms that holds it, the form's number in the top two bits of the
/// first byte.
pub open spec fn varint_bytes(v: u64) -> Seq<u8>
    recommends
        v <= MAX_VARINT,
{
    if v < 0x40 {
        seq![v as u8]
    } else if v < 0x4000 {
        u16_bytes((v + 0x4000) as u16)
    } else if v < 0x4000_0000 {
        u32_bytes((v + 0x8000_0000) as u32)
    } else {
        u64_bytes((v + 0xc000_0000_0000_0000) as u64)
    }
}

/// The length of a variable-length integer whose first byte is `first`.
pub open spec fn varint_parse_len(first: u8) -> int {
    if first < 0x40 {
        1
    } else if first < 0x80 {
        2
    } else if first < 0xc0 {
        4
    } else {
        8
    }
}

/// The variable-length integer that starts at `i`, with the offset just
/// behind it; `None` where `s` ends before the integer does.
pub open spec fn varint_at(s: Seq<u8>, i: int) -> Option<(u64, int)> {
    if i < 0 || i >= s.len() {
        None
    } else {
        let n = varint_parse_len(s[i]);
        if i + n > s.len() {
            None
        } else if n == 1 {
            Some((s[i] as u64, i + 1))
        } else if n == 2 {
            Some(((be16(s, i) - 0x4000) as u64, i + 2))
        } else if n == 4 {
            Some(((be32(s, i) - 0x8000_0000) as u64, i + 4))
        } else {
            Some(((be64(s, i) - 0xc000_0000_0000_0000) as u64, i + 8))
        }
    }
}

/// `s` with the bytes from `i` on replaced by `e`, as far as `e` reaches.
pub open spec fn splice(s: Seq<u8>, i: int, e: Seq<u8>) -> Seq<u8> {
    s.take(i) + e + s.skip(i + e.len())
}

/// A 16-bit integer survives encoding and decoding.
pub proof fn lemma_u16_roundtrip(v: u16, s: Seq<u8>, i: int)
    requires
        0 <= i,
        i + 2 <= s.len(),
        s.subrange(i, i + 2) == u16_bytes(v),
    ensures
        be16(s, i) == v,
{
    let e = u16_bytes(v);
    assert(s[i] == s.subrange(i, i + 2)[0]);
    assert(s[i + 1] == s.subrange(i, i + 2)[1]);
    assert(e[0] == (v / 0x100) as u8);
    assert(e[1] == (v % 0x100) as u8);
}

/// A 32-bit integer survives encoding and decoding.
pub proof fn lemma_u32_roundtrip(v: u32, s: Seq<u8>, i: int)
    requires
        0 <= i,
        i + 4 <= s.len(),
        s.subrange(i, i + 4) == u32_bytes(v),
    ensures
        be32(s, i) == v,
{
    let e = u32_bytes(v);
    let hi = (v / 0x1_0000) as u16;
    let lo = (v % 0x1_0000) as u16;
    assert(s.subrange(i, i + 2) =~= u16_bytes(hi)) by {
        assert forall|k: int| 0 <= k < 2 implies s.subrange(i, i + 2)[k] == u16_bytes(hi)[k] by {
            assert(s.subrange(i, i + 4)[k] == e[k]);
        }
    }
    assert(s.subrange(i + 2, i + 4) =~= u16_bytes(lo)) by {
        assert forall|k: int| 0 <= k < 2
            implies s.subrange(i + 2, i + 4)[k] == u16_bytes(lo)[k] by {
            assert(s.subrange(i, i + 4)[k + 2] == e[k + 2]);
        }
    }
    lemma_u16_roundtrip(hi, s, i);
    lemma_u16_roundtrip(lo, s, i + 2);
}

/// A 64-bit integer survives encoding and decoding.
pub proof fn lemma_u64_roundtrip(v: u64, s: Seq<u8>, i: int)
    requires
        0 <= i,
        i + 8 <= s.len(),
        s.subrange(i, i + 8) == u64_bytes(v),
    ensures
        be64(s, i) == v,
{
    let e = u64_bytes(v);
    let hi = (v / 0x1_0000_0000) as u32;
    let lo = (v % 0x1_0000_0000) as u32;
    assert(u32_bytes(hi).len() == 4);
    assert(u32_bytes(lo).len() == 4);
    assert(s.subrange(i, i + 4) =~= u32_bytes(hi)) by {
        assert forall|k: int| 0 <= k < 4 implies s.subrange(i, i + 4)[k] == u32_bytes(hi)[k] by {
            assert(s.subrange(i, i + 8)[k] == e[k]);
        }
    }
    assert(s.subrange(i + 4, i + 8) =~= u32_bytes(lo)) by {
        assert forall|k: int| 0 <= k < 4
            implies s.subrange(i + 4, i + 8)[k] == u32_bytes(lo)[k] by {
            assert(s.subrange(i, i + 8)[k + 4] == e[k + 4]);
        }
    }
    lemma_u32_roundtrip(hi, s, i);
    lemma_u32_roundtrip(lo, s, i + 4);
}

/// Wherever the encoding of `v` stands in `s`, decoding there gives `v` back
/// and stops just behind it.
pub proof fn lemma_varint_roundtrip_at(v: u64, s: Seq<u8>, i: int)
    requires
        v <= MAX_VARINT,
        0 <= i,
        i + varint_len(v) <= s.len(),
        s.subrange(i, i + varint_len(v)) == varint_bytes(v),
    ensures
        varint_at(s, i) == Some((v, i + varint_len(v))),
{
    let n = varint_len(v);
    let e = varint_bytes(v);
    assert(s[i] == s.subrange(i, i + n)[0]);
    if v < 0x40 {
        assert(e[0] == v as u8);
    } else if v < 0x4000 {
        let x = (v + 0x4000) as u16;
        lemma_u16_roundtrip(x, s, i);
        assert(e[0] == (x / 0x100) as u8);
    } else if v < 0x4000_0000 {
        let x = (v + 0x8000_0000) as u32;
        lemma_u32_roundtrip(x, s, i);
        assert(e[0] == ((x / 0x1_0000) as u16 / 0x100) as u8);
    } else {
        let x = (v + 0xc000_0000_0000_0000) as u64;
        lemma_u64_roundtrip(x, s, i);
        assert(e[0] == (((x / 0x1_0000_0000) as u32 / 0x1_0000) as u16 / 0x100) as u8);
    }
}

/// Every integer below 2^62 survives variable-length encoding and decoding.
pub proof fn lemma_varint_roundtrip(v: u64)
    requires
        v <= MAX_VARINT,
    ensures
        varint_at(varint_bytes(v), 0) == Some((v, varint_len(v))),
{
    let e = varint_bytes(v);
    assert(e.subrange(0, varint_len(v)) =~= e);
    lemma_varint_roundtrip_at(v, e, 0);
}


/// A copy of the bytes of `s` from `a` up to `b`.
pub fn copy_range(s: &[u8], a: usize, b: usize) -> (r: Vec<u8>)
    requires
        a <= b <= s@.len(),
    ensures
        r@ == s@.subrange(a as int, b as int),
{
    let mut r: Vec<u8> = Vec::new();
    let mut i: usize = a;
    while i < b
        invariant
            a <= i <= b <= s@.len(),
            r@ == s@.subrange(a as int, i as int),
        decreases b - i,
    {
        r.push(s[i]);
        i += 1;
        assert(r@ =~= s@.subrange(a as int, i as int));
    }
    r
}

/// Appends the bytes of `s` to `v`.
pub fn append(v: &mut Vec<u8>, s: &[u8])
    ensures
        final(v)@ == old(v)@ + s@,
{
    let mut i: usize = 0;
    while i < s.len()
        invariant
            0 <= i <= s@.len(),
            v@ == old(v)@ + s@.take(i as int),
        decreases s@.len() - i,
    {
        v.push(s[i]);
        i += 1;
        assert(v@ =~= old(v)@ + s@.take(i as int));
    }
    assert(s@.take(s@.len() as int) =~= s@);
}

/// Appends `x` in network byte order.
pub fn push_u16(v: &mut Vec<u8>, x: u16)
    ensures
        final(v)@ == old(v)@ + u16_bytes(x),
{
    v.push((x / 0x100) as u8);
    v.push((x % 0x100) as u8);
    assert(v@ =~= old(v)@ + u16_bytes(x));
}

/// Appends `x` in network byte order.
pub fn push_u32(v: &mut Vec<u8>, x: u32)
    ensures
        final(v)@ == old(v)@ + u32_bytes(x),
{
    push_u16(v, (x / 0x1_0000) as u16);
    push_u16(v, (x % 0x1_0000) as u16);
    assert(v@ =~= old(v)@ + u32_bytes(x));
}

/// Appends `x` in network byte order.
pub fn push_u64(v: &mut Vec<u8>, x: u64)
    ensures
        final(v)@ == old(v)@ + u64_bytes(x),
{
    push_u32(v, (x / 0x1_0000_0000) as u32);
    push_u32(v, (x % 0x1_0000_0000) as u32);
    assert(v@ =~= old(v)@ + u64_bytes(x));
}

/// Appends the variable-length encoding of `x`.
pub fn push_varint(v: &mut Vec<u8>, x: u64)
    requires
        x <= MAX_VARINT,
    ensures
        final(v)@ == old(v)@ + varint_bytes(x),
{
    if x < 0x40 {
        v.push(x as u8);
        assert(v@ =~= old(v)@ + varint_bytes(x));
    } else if x < 0x4000 {
        push_u16(v, (x + 0x4000) as u16);
    } else if x < 0x4000_0000 {
        push_u32(v, (x + 0x8000_0000) as u32);
    } else {
        push_u64(v, x + 0xc000_0000_0000_0000);
    }
}

/// The number of bytes that the variable-length encoding of `x` takes.
pub fn varint_size(x: u64) -> (n: usize)
    ensures
        n == varint_len(x),
{
    if x < 0x40 {
        1
    } else if x < 0x4000 {
        2
    } else if x < 0x4000_0000 {
        4
    } else {
        8
    }
}

/// A cursor over a byte buffer of fixed length. Reads and writes happen at
/// the current offset and move it forward; none reaches past the buffer's
/// end, and one that would leaves the cursor as it was.
pub struct Bytes {
    buf: Vec<u8>,
    off: usize,
}

impl Bytes {
    /// The whole buffer.
    pub closed spec fn data(&self) -> Seq<u8> {
        self.buf@
    }

    /// The current offset.
    pub closed spec fn pos(&self) -> int {
        self.off as int
    }

    /// The offset lies within the buffer.
    pub open spec fn wf(&self) -> bool {
        0 <= self.pos() <= self.data().len()
    }

    /// Whether `n` more bytes lie between the offset and the buffer's end.
    pub open spec fn has(&self, n: int) -> bool {
        self.pos() + n <= self.data().len()
    }

    /// What a read of `n` bytes makes of the cursor `before`: the buffer is
    /// as it was, and the offset lies behind the bytes where that many were
    /// left, and is as it was where not.
    pub open spec fn read(&self, before: &Bytes, n: int) -> bool {
        &&& self.data() == before.data()
        &&& self.pos() == if before.has(n) {
            before.pos() + n
        } else {
            before.pos()
        }
    }

    /// What a write of the bytes `e` makes of the cursor `before`, and
    /// what it returns: where `e` fits, it stands at the cursor's offset and
    /// the offset lies behind it; where it does not fit, the cursor is as it
    /// was.
    pub open spec fn wrote(&self, before: &Bytes, e: Seq<u8>, r: Result<(), Error>) -> bool {
        if before.has(e.len() as int) {
            &&& r == Ok::<(), Error>(())
            &&& self.data() == splice(before.data(), before.pos(), e)
            &&& self.pos() == before.pos() + e.len()
        } else {
            &&& r == Err::<(), Error>(Error::BufferTooShort)
            &&& self.data() == before.data()
            &&& self.pos() == before.pos()
        }
    }

    /// A cursor at the start of `buf`.
    pub fn new(buf: Vec<u8>) -> (b: Bytes)
        ensures
            b.wf(),
            b.data() == buf@,
            b.pos() == 0,
    {
        Bytes { buf, off: 0 }
    }

    /// A cursor at the start of a copy of `buf`.
    pub fn from_slice(buf: &[u8]) -> (b: Bytes)
        ensures
            b.wf(),
            b.data() == buf@,
            b.pos() == 0,
    {
        let v = copy_range(buf, 0, buf.len());
        assert(buf@.subrange(0, buf@.len() as int) =~= buf@);
        Bytes { buf: v, off: 0 }
    }

    /// The buffer's length.
    pub fn len(&self) -> (n: usize)
        ensures
            n == self.data().len(),
    {
        self.buf.len()
    }

    /// The current offset.
    pub fn off(&self) -> (n: usize)
        ensures
            n == self.pos(),
    {
        self.off
    }

    /// The number of bytes between the offset and the buffer's end.
    pub fn cap(&self) -> (n: usize)
        requires
            self.wf(),
        ensures
            n == self.data().len() - self.pos(),
    {
        self.buf.len() - self.off
    }

    /// The buffer, given up by the cursor.
    pub fn into_vec(self) -> (v: Vec<u8>)
        ensures
            v@ == self.data(),
    {
        self.buf
    }

    /// Moves the offset to `off`.
    pub fn seek(&mut self, off: usize) -> (r: Result<(), Error>)
        ensures
            final(self).data() == old(self).data(),
            off <= old(self).data().len() ==> r == Ok::<(), Error>(()) && final(self).pos() == off,
            off > old(self).data().len() ==> r == Err::<(), Error>(Error::BufferTooShort)
                && final(self).pos() == old(self).pos(),
    {
        if off > self.buf.len() {
            return Err(Error::BufferTooShort);
        }
        self.off = off;
        Ok(())
    }

    /// Moves the offset forward by `n`.
    pub fn skip(&mut self, n: usize) -> (r: Result<(), Error>)
        requires
            old(self).wf(),
        ensures
            final(self).wf(),
            final(self).read(old(self), n as int),
            r == if old(self).has(n as int) {
                Ok::<(), Error>(())
            } else {
                Err(Error::BufferTooShort)
            },
    {
        if n > self.buf.len() - self.off {
            return Err(Error::BufferTooShort);
        }
        self.off = self.off + n;
        Ok(())
    }

    /// The byte at the offset, which stays where it is.
    pub fn peek_u8(&self) -> (r: Result<u8, Error>)
        requires
            self.wf(),
        ensures
            r == if self.has(1) {
                Ok::<u8, Error>(self.data()[self.pos()])
            } else {
                Err(Error::BufferTooShort)
            },
    {
        if self.off >= self.buf.len() {
            return Err(Error::BufferTooShort);
        }
        Ok(self.buf[self.off])
    }

    /// Reads one byte.
    pub fn get_u8(&mut self) -> (r: Result<u8, Error>)
        requires
            old(self).wf(),
        ensures
            final(self).wf(),
            final(self).read(old(self), 1),
            r == if old(self).has(1) {
                Ok::<u8, Error>(old(self).data()[old(self).pos()])
            } else {
                Err(Error::BufferTooShort)
            },
    {
        if self.off >= self.buf.len() {
            return Err(Error::BufferTooShort);
        }
        let v: u8 = self.buf[self.off];
        self.off = self.off + 1;
        Ok(v)
    }

    /// Reads a 16-bit integer in network byte order.
    pub fn get_u16(&mut self) -> (r: Result<u16, Error>)
        requires
            old(self).wf(),
        ensures
            final(self).wf(),
            final(self).read(old(self), 2),
            r == if old(self).has(2) {
                Ok::<u16, Error>(be16(old(self).data(), old(self).pos()) as u16)
            } else {
                Err(Error::BufferTooShort)
            },
    {
        if self.buf.len() - self.off < 2 {
            return Err(Error::BufferTooShort);
        }
        let hi: u16 = self.buf[self.off] as u16;
        let lo: u16 = self.buf[self.off + 1] as u16;
        self.off = self.off + 2;
        Ok(hi * 0x100 + lo)
    }

    /// Reads a 32-bit integer in network byte order.
    pub fn get_u32(&mut self) -> (r: Result<u32, Error>)
        requires
            old(self).wf(),
        ensures
            final(self).wf(),
            final(self).read(old(self), 4),
            r == if old(self).has(4) {
                Ok::<u32, Error>(be32(old(self).data(), old(self).pos()) as u32)
            } else {
                Err(Error::BufferTooShort)
            },
    {
        if self.buf.len() - self.off < 4 {
            return Err(Error::BufferTooShort);
        }
        let hi: u32 = match self.get_u16() {
            Ok(v) => v as u32,
            Err(e) => return Err(e),
        };
        let lo: u32 = match self.get_u16() {
            Ok(v) => v as u32,
            Err(e) => return Err(e),
        };
        Ok(hi * 0x1_0000 + lo)
    }

    /// Reads a 64-bit integer in network byte order.
    pub fn get_u64(&mut self) -> (r: Result<u64, Error>)
        requires
            old(self).wf(),
        ensures
            final(self).wf(),
            final(self).read(old(self), 8),
            r == if old(self).has(8) {
                Ok::<u64, Error>(be64(old(self).data(), old(self).pos()) as u64)
            } else {
                Err(Error::BufferTooShort)
            },
    {
        if self.buf.len() - self.off < 8 {
            return Err(Error::BufferTooShort);
        }
        let hi: u64 = match self.get_u32() {
            Ok(v) => v as u64,
            Err(e) => return Err(e),
        };
        let lo: u64 = match self.get_u32() {
            Ok(v) => v as u64,
            Err(e) => return Err(e),
        };
        Ok(hi * 0x1_0000_0000 + lo)
    }

    /// Reads a variable-length integer.
    pub fn get_varint(&mut self) -> (r: Result<u64, Error>)
        requires
            old(self).wf(),
        ensures
            final(self).wf(),
            final(self).data() == old(self).data(),
            match varint_at(old(self).data(), old(self).pos()) {
                Some((v, next)) => r == Ok::<u64, Error>(v) && final(self).pos() == next
                    && v <= MAX_VARINT,
                None => r == Err::<u64, Error>(Error::BufferTooShort)
                    && final(self).pos() == old(self).pos(),
            },
    {
        if self.off >= self.buf.len() {
            return Err(Error::BufferTooShort);
        }
        let first: u8 = self.buf[self.off];
        let left: usize = self.buf.len() - self.off;
        if first < 0x40 {
            self.off = self.off + 1;
            Ok(first as u64)
        } else if first < 0x80 {
            if left < 2 {
                return Err(Error::BufferTooShort);
            }
            match self.get_u16() {
                Ok(v) => Ok((v - 0x4000) as u64),
                Err(e) => Err(e),
            }
        } else if first < 0xc0 {
            if left < 4 {
                return Err(Error::BufferTooShort);
            }
            match self.get_u32() {
                Ok(v) => Ok((v - 0x8000_0000) as u64),
                Err(e) => Err(e),
            }
        } else {
            if left < 8 {
                return Err(Error::BufferTooShort);
            }
            match self.get_u64() {
                Ok(v) => Ok(v - 0xc000_0000_0000_0000),
                Err(e) => Err(e),
            }
        }
    }

    /// A copy of the next `n` bytes; the offset stays where it is.
    pub fn peek_bytes(&self, n: usize) -> (r: Result<Vec<u8>, Error>)
        requires
            self.wf(),
        ensures
            match r {
                Ok(v) => self.has(n as int)
                    && v@ == self.data().subrange(self.pos(), self.pos() + n),
                Err(e) => !self.has(n as int) && e == Error::BufferTooShort,
            },
    {
        if n > self.buf.len() - self.off {
            return Err(Error::BufferTooShort);
        }
        Ok(copy_range(self.buf.as_slice(), self.off, self.off + n))
    }

    /// Reads the next `n` bytes.
    pub fn get_bytes(&mut self, n: usize) -> (r: Result<Vec<u8>, Error>)
        requires
            old(self).wf(),
        ensures
            final(self).wf(),
            final(self).read(old(self), n as int),
            match r {
                Ok(v) => old(self).has(n as int)
                    && v@ == old(self).data().subrange(old(self).pos(), old(self).pos() + n),
                Err(e) => !old(self).has(n as int) && e == Error::BufferTooShort,
            },
    {
        if n > self.buf.len() - self.off {
            return Err(Error::BufferTooShort);
        }
        let v = copy_range(self.buf.as_slice(), self.off, self.off + n);
        self.off = self.off + n;
        Ok(v)
    }

    /// The buffer's two parts, before and from the offset `at`.
    pub fn split_at(&self, at: usize) -> (r: Result<(Vec<u8>, Vec<u8>), Error>)
        ensures
            match r {
                Ok((head, tail)) => at <= self.data().len()
                    && head@ == self.data().take(at as int)
                    && tail@ == self.data().skip(at as int),
                Err(e) => at > self.data().len() && e == Error::BufferTooShort,
            },
    {
        if at > self.buf.len() {
            return Err(Error::BufferTooShort);
        }
        let head = copy_range(self.buf.as_slice(), 0, at);
        let tail = copy_range(self.buf.as_slice(), at, self.buf.len());
        Ok((head, tail))
    }

    /// Writes `src` at the offset.
    pub fn put_bytes(&mut self, src: &[u8]) -> (r: Result<(), Error>)
        requires
            old(self).wf(),
        ensures
            final(self).wf(),
            final(self).wrote(old(self), src@, r),
    {
        if src.len() > self.buf.len() - self.off {
            return Err(Error::BufferTooShort);
        }
        let start: usize = self.off;
        let mut i: usize = 0;
        while i < src.len()
            invariant
                0 <= i <= src@.len(),
                start + src@.len() <= self.buf@.len() <= usize::MAX,
                self.off == start,
                self.buf@.len() == old(self).buf@.len(),
                self.buf@ == splice(old(self).buf@, start as int, src@.take(i as int)),
            decreases src@.len() - i,
        {
            self.buf[start + i] = src[i];
            i += 1;
            assert(self.buf@ =~= splice(old(self).buf@, start as int, src@.take(i as int)));
        }
        assert(src@.take(src@.len() as int) =~= src@);
        self.off = start + src.len();
        Ok(())
    }

    /// Writes one byte.
    pub fn put_u8(&mut self, v: u8) -> (r: Result<(), Error>)
        requires
            old(self).wf(),
        ensures
            final(self).wf(),
            final(self).wrote(old(self), seq![v], r),
    {
        let mut e: Vec<u8> = Vec::new();
        e.push(v);
        assert(e@ =~= seq![v]);
        self.put_bytes(e.as_slice())
    }

    /// Writes a 16-bit integer in network byte order.
    pub fn put_u16(&mut self, v: u16) -> (r: Result<(), Error>)
        requires
            old(self).wf(),
        ensures
            final(self).wf(),
            final(self).wrote(old(self), u16_bytes(v), r),
    {
        let mut e: Vec<u8> = Vec::new();
        push_u16(&mut e, v);
        assert(e@ =~= u16_bytes(v));
        self.put_bytes(e.as_slice())
    }

    /// Writes a 32-bit integer in network byte order.
    pub fn put_u32(&mut self, v: u32) -> (r: Result<(), Error>)
        requires
            old(self).wf(),
        ensures
            final(self).wf(),
            final(self).wrote(old(self), u32_bytes(v), r),
    {
        let mut e: Vec<u8> = Vec::new();
        push_u32(&mut e, v);
        assert(e@ =~= u32_bytes(v));
        self.put_bytes(e.as_slice())
    }

    /// Writes a 64-bit integer in network byte order.
    pub fn put_u64(&mut self, v: u64) -> (r: Result<(), Error>)
        requires
            old(self).wf(),
        ensures
            final(self).wf(),
            final(self).wrote(old(self), u64_bytes(v), r),
    {
        let mut e: Vec<u8> = Vec::new();
        push_u64(&mut e, v);
        assert(e@ =~= u64_bytes(v));
        self.put_bytes(e.as_slice())
    }

    /// Writes a variable-length integer.
    pub fn put_varint(&mut self, v: u64) -> (r: Result<(), Error>)
        requires
            old(self).wf(),
            v <= MAX_VARINT,
        ensures
            final(self).wf(),
            final(self).wrote(old(self), varint_bytes(v), r),
    {
        let mut e: Vec<u8> = Vec::new();
        push_varint(&mut e, v);
        assert(e@ =~= varint_bytes(v));
        self.put_bytes(e.as_slice())
    }
}

} // verus!
