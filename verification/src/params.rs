//! Transport parameters: the limits an endpoint announces to its peer, and
//! their wire form.

use vstd::prelude::*;
use crate::Error;
use crate::octets::{
    be16, be32, u16_bytes, u32_bytes, splice, push_u16, push_u32, append, Bytes,
        lemma_u16_roundtrip,
    lemma_u32_roundtrip,
};

verus! {

/// The limits an endpoint announces to its peer during the handshake.
#[derive(Clone, Copy, Debug, PartialEq)]
pub struct TransportParams {
    pub idle_timeout: u16,
    pub initial_max_data: u32,
    pub initial_max_bidi_streams: u16,
    pub initial_max_uni_streams: u16,
    pub max_packet_size: u16,
    pub ack_delay_exponent: u8,
    pub disable_migration: bool,
    pub max_ack_delay: u8,
    pub initial_max_stream_data_bidi_local: u32,
    pub initial_max_stream_data_bidi_remote: u32,
    pub initial_max_stream_data_uni: u32,
    pub stateless_reset_token_present: bool,
    pub stateless_reset_token: [u8; 16],
}

/// Transport parameters as a mathematical record.
pub struct Params {
    pub idle_timeout: u16,
    pub initial_max_data: u32,
    pub initial_max_bidi_streams: u16,
    pub initial_max_uni_streams: u16,
    pub max_packet_size: u16,
    pub ack_delay_exponent: u8,
    pub disable_migration: bool,
    pub max_ack_delay: u8,
    pub initial_max_stream_data_bidi_local: u32,
    pub initial_max_stream_data_bidi_remote: u32,
    pub initial_max_stream_data_uni: u32,
    pub stateless_reset_token_present: bool,
    pub stateless_reset_token: Seq<u8>,
}

impl View for TransportParams {
    type V = Params;

    open spec fn view(&self) -> Params {
        Params {
            idle_timeout: self.idle_timeout,
            initial_max_data: self.initial_max_data,
            initial_max_bidi_streams: self.initial_max_bidi_streams,
            initial_max_uni_streams: self.initial_max_uni_streams,
            max_packet_size: self.max_packet_size,
            ack_delay_exponent: self.ack_delay_exponent,
            disable_migration: self.disable_migration,
            max_ack_delay: self.max_ack_delay,
            initial_max_stream_data_bidi_local: self.initial_max_stream_data_bidi_local,
            initial_max_stream_data_bidi_remote: self.initial_max_stream_data_bidi_remote,
            initial_max_stream_data_uni: self.initial_max_stream_data_uni,
            stateless_reset_token_present: self.stateless_reset_token_present,
            stateless_reset_token: self.stateless_reset_token@,
        }
    }
}

/// The parameters of an endpoint that announced none.
pub open spec fn default_params() -> Params {
    Params {
        idle_timeout: 0,
        initial_max_data: 0,
        initial_max_bidi_streams: 0,
        initial_max_uni_streams: 0,
        max_packet_size: 1205,
        ack_delay_exponent: 3,
        disable_migration: false,
        max_ack_delay: 25,
        initial_max_stream_data_bidi_local: 0,
        initial_max_stream_data_bidi_remote: 0,
        initial_max_stream_data_uni: 0,
        stateless_reset_token_present: false,
        stateless_reset_token: Seq::new(16, |i: int| 0u8),
    }
}

/// One parameter on the wire: its identifier, the length of its value, the
/// value.
pub open spec fn tlv(id: u16, val: Seq<u8>) -> Seq<u8> {
    u16_bytes(id) + u16_bytes(val.len() as u16) + val
}

/// The number of parameters that `encode` may write.
pub open spec fn field_count() -> int {
    11
}

/// The identifier of the `k`-th parameter in the order of writing.
pub open spec fn field_id(k: int) -> u16 {
    if k == 0 {
        0x0003
    } else if k == 1 {
        0x0001
    } else if k == 2 {
        0x0002
    } else if k == 3 {
        0x0008
    } else if k == 4 {
        0x0005
    } else if k == 5 {
        0x0007
    } else if k == 6 {
        0x0009
    } else if k == 7 {
        0x0000
    } else if k == 8 {
        0x000a
    } else if k == 9 {
        0x000b
    } else {
        0x0006
    }
}

/// Whether the `k`-th parameter is written: a number where it is not zero,
/// a flag where it is set, the reset token where a server has one.
pub open spec fn field_present(p: Params, is_server: bool, k: int) -> bool {
    if k == 0 {
        p.idle_timeout != 0
    } else if k == 1 {
        p.initial_max_data != 0
    } else if k == 2 {
        p.initial_max_bidi_streams != 0
    } else if k == 3 {
        p.initial_max_uni_streams != 0
    } else if k == 4 {
        p.max_packet_size != 0
    } else if k == 5 {
        p.ack_delay_exponent != 0
    } else if k == 6 {
        p.disable_migration
    } else if k == 7 {
        p.initial_max_stream_data_bidi_local != 0
    } else if k == 8 {
        p.initial_max_stream_data_bidi_remote != 0
    } else if k == 9 {
        p.initial_max_stream_data_uni != 0
    } else {
        is_server && p.stateless_reset_token_present
    }
}

/// The value of the `k`-th parameter on the wire.
pub open spec fn field_value(p: Params, k: int) -> Seq<u8> {
    if k == 0 {
        u16_bytes(p.idle_timeout)
    } else if k == 1 {
        u32_bytes(p.initial_max_data)
    } else if k == 2 {
        u16_bytes(p.initial_max_bidi_streams)
    } else if k == 3 {
        u16_bytes(p.initial_max_uni_streams)
    } else if k == 4 {
        u16_bytes(p.max_packet_size)
    } else if k == 5 {
        seq![p.ack_delay_exponent]
    } else if k == 6 {
        Seq::<u8>::empty()
    } else if k == 7 {
        u32_bytes(p.initial_max_stream_data_bidi_local)
    } else if k == 8 {
        u32_bytes(p.initial_max_stream_data_bidi_remote)
    } else if k == 9 {
        u32_bytes(p.initial_max_stream_data_uni)
    } else {
        p.stateless_reset_token
    }
}

/// What the `k`-th parameter adds to the wire form: nothing where it is not
/// written.
pub open spec fn field_bytes(p: Params, is_server: bool, k: int) -> Seq<u8> {
    if field_present(p, is_server, k) {
        tlv(field_id(k), field_value(p, k))
    } else {
        Seq::<u8>::empty()
    }
}

/// The wire form of the first `k` parameters.
pub open spec fn fields_upto(p: Params, is_server: bool, k: int) -> Seq<u8>
    decreases k,
{
    if k <= 0 {
        Seq::<u8>::empty()
    } else {
        fields_upto(p, is_server, k - 1) + field_bytes(p, is_server, k - 1)
    }
}

/// What stands before the parameters: the version and, from a server, the
/// list of the versions it supports, which holds that version alone.
pub open spec fn preamble(version: u32, is_server: bool) -> Seq<u8> {
    if is_server {
        u32_bytes(version) + seq![4u8] + u32_bytes(version)
    } else {
        u32_bytes(version)
    }
}

/// The wire form of `p`, as the given side writes it.
pub open spec fn encode_spec(p: Params, version: u32, is_server: bool) -> Seq<u8> {
    let fields = fields_upto(p, is_server, field_count());
    preamble(version, is_server) + u16_bytes(fields.len() as u16) + fields
}

/// `p` after one parameter was read. A value shorter than the parameter's
/// size is refused; unknown identifiers change nothing.
pub open spec fn apply_param(p: Params, id: u16, val: Seq<u8>) -> Result<Params, Error> {
    if id == 0x0000 {
        if val.len() < 4 {
            Err(Error::BufferTooShort)
        } else {
            Ok(Params { initial_max_stream_data_bidi_local: be32(val, 0) as u32, ..p })
        }
    } else if id == 0x0001 {
        if val.len() < 4 {
            Err(Error::BufferTooShort)
        } else {
            Ok(Params { initial_max_data: be32(val, 0) as u32, ..p })
        }
    } else if id == 0x0002 {
        if val.len() < 2 {
            Err(Error::BufferTooShort)
        } else {
            Ok(Params { initial_max_bidi_streams: be16(val, 0) as u16, ..p })
        }
    } else if id == 0x0003 {
        if val.len() < 2 {
            Err(Error::BufferTooShort)
        } else {
            Ok(Params { idle_timeout: be16(val, 0) as u16, ..p })
        }
    } else if id == 0x0005 {
        if val.len() < 2 {
            Err(Error::BufferTooShort)
        } else {
            Ok(Params { max_packet_size: be16(val, 0) as u16, ..p })
        }
    } else if id == 0x0006 {
        if val.len() < 16 {
            Err(Error::BufferTooShort)
        } else {
            Ok(
                Params {
                    stateless_reset_token: val.take(16),
                    stateless_reset_token_present: true,
                    ..p
                },
            )
        }
    } else if id == 0x0007 {
        if val.len() < 1 {
            Err(Error::BufferTooShort)
        } else {
            Ok(Params { ack_delay_exponent: val[0], ..p })
        }
    } else if id == 0x0008 {
        if val.len() < 2 {
            Err(Error::BufferTooShort)
        } else {
            Ok(Params { initial_max_uni_streams: be16(val, 0) as u16, ..p })
        }
    } else if id == 0x0009 {
        Ok(Params { disable_migration: true, ..p })
    } else if id == 0x000a {
        if val.len() < 4 {
            Err(Error::BufferTooShort)
        } else {
            Ok(Params { initial_max_stream_data_bidi_remote: be32(val, 0) as u32, ..p })
        }
    } else if id == 0x000b {
        if val.len() < 4 {
            Err(Error::BufferTooShort)
        } else {
            Ok(Params { initial_max_stream_data_uni: be32(val, 0) as u32, ..p })
        }
    } else if id == 0x000c {
        if val.len() < 1 {
            Err(Error::BufferTooShort)
        } else {
            Ok(Params { max_ack_delay: val[0], ..p })
        }
    } else {
        Ok(p)
    }
}

/// `p` after the parameters that stand in `s` from `i` on were read, one
/// after the other.
pub open spec fn decode_fields(s: Seq<u8>, i: int, p: Params) -> Result<Params, Error>
    decreases s.len() - i,
{
    if i < 0 || i >= s.len() {
        Ok(p)
    } else if i + 4 > s.len() {
        Err(Error::BufferTooShort)
    } else {
        let id = be16(s, i) as u16;
        let n = be16(s, i + 2);
        if i + 4 + n > s.len() {
            Err(Error::BufferTooShort)
        } else {
            match apply_param(p, id, s.subrange(i + 4, i + 4 + n)) {
                Ok(q) => decode_fields(s, i + 4 + n, q),
                Err(e) => Err(e),
            }
        }
    }
}

/// The offset at which the length of the parameters stands: behind the
/// version and, in what a server wrote, behind its list of versions. `None`
/// where `s` ends before that.
pub open spec fn fields_offset(s: Seq<u8>, is_server: bool) -> Option<int> {
    if s.len() < 4 {
        None
    } else if is_server {
        Some(4)
    } else if s.len() < 5 || 5 + s[4] > s.len() {
        None
    } else {
        Some(5 + s[4])
    }
}

/// The parameters that `s` announces to the given side; a server reads what
/// a client wrote, and a client what a server wrote.
pub open spec fn decode_spec(s: Seq<u8>, is_server: bool) -> Result<Params, Error> {
    match fields_offset(s, is_server) {
        None => Err(Error::BufferTooShort),
        Some(at) => {
            if at + 2 > s.len() || at + 2 + be16(s, at) > s.len() {
                Err(Error::BufferTooShort)
            } else {
                decode_fields(s.subrange(at + 2, at + 2 + be16(s, at)), 0, default_params())
            }
        },
    }
}

impl TransportParams {
    /// Reads the parameters that a peer announced in `buf`. `is_server` says
    /// which side reads: what a server sent holds a list of versions before
    /// the parameters, which is passed over.
    pub fn decode(buf: &[u8], _version: u32, is_server: bool) -> (r: Result<
        TransportParams,
        Error,
    >)
        ensures
            match r {
                Ok(tp) => decode_spec(buf@, is_server) == Ok::<Params, Error>(tp@),
                Err(e) => decode_spec(buf@, is_server) == Err::<Params, Error>(e),
            },
    {
        let mut b = Bytes::from_slice(buf);
        match b.get_u32() {
            Ok(_) => {},
            Err(e) => return Err(e),
        }
        if !is_server {
            let n: usize = match b.get_u8() {
                Ok(v) => v as usize,
                Err(e) => return Err(e),
            };
            match b.skip(n) {
                Ok(_) => {},
                Err(e) => return Err(e),
            }
        }
        let ghost at = b.pos();
        assert(fields_offset(buf@, is_server) == Some(at));
        let len: usize = match b.get_u16() {
            Ok(v) => v as usize,
            Err(e) => return Err(e),
        };
        let fields: Vec<u8> = match b.get_bytes(len) {
            Ok(v) => v,
            Err(e) => return Err(e),
        };
        let mut f = Bytes::new(fields);
        let mut tp = TransportParams::default();
        while f.cap() > 0
            invariant
                f.wf(),
                f.data() == buf@.subrange(at + 2, at + 2 + len),
                decode_spec(buf@, is_server) == decode_fields(f.data(), f.pos(), tp@),
                tp.stateless_reset_token@.len() == 16,
            decreases f.data().len() - f.pos(),
        {
            let id: u16 = match f.get_u16() {
                Ok(v) => v,
                Err(e) => return Err(e),
            };
            let n: usize = match f.get_u16() {
                Ok(v) => v as usize,
                Err(e) => return Err(e),
            };
            let val: Vec<u8> = match f.get_bytes(n) {
                Ok(v) => v,
                Err(e) => return Err(e),
            };
            match tp.apply(id, val.as_slice()) {
                Ok(_) => {},
                Err(e) => return Err(e),
            }
        }
        Ok(tp)
    }

    /// Writes the wire form of `tp` to the front of `out` and returns the part
    /// of `out` that holds it. Nothing is written where `out` is too short.
    pub fn encode<'a>(tp: &TransportParams, version: u32, is_server: bool, out: &'a mut [u8]) -> (r:
        Result<&'a mut [u8], Error>)
        ensures
            match r {
                Ok(w) => {
                    let e = encode_spec(tp@, version, is_server);
                    &&& w@ == e
                    &&& e.len() <= old(out)@.len()
                    &&& final(out)@ == final(w)@ + old(out)@.skip(e.len() as int)
                },
                Err(e) => {
                    &&& e == Error::BufferTooShort
                    &&& encode_spec(tp@, version, is_server).len() > old(out)@.len()
                    &&& final(out)@ == old(out)@
                },
            },
    {
        let whole = tp.to_bytes(version, is_server);
        let n: usize = whole.len();
        if out.len() < n {
            return Err(Error::BufferTooShort);
        }
        let mut i: usize = 0;
        while i < n
            invariant
                0 <= i <= n,
                n == whole@.len(),
                out@.len() == old(out)@.len(),
                n <= out@.len(),
                out@ == splice(old(out)@, 0, whole@.take(i as int)),
            decreases n - i,
        {
            out[i] = whole[i];
            i += 1;
            assert(out@ =~= splice(old(out)@, 0, whole@.take(i as int)));
        }
        assert(whole@.take(n as int) =~= whole@);
        let (head, _tail) = out.split_at_mut(n);
        assert(head@ =~= whole@);
        Ok(head)
    }

    /// The wire form of `tp`.
    pub fn to_bytes(&self, version: u32, is_server: bool) -> (r: Vec<u8>)
        ensures
            r@ == encode_spec(self@, version, is_server),
    {
        let mut f: Vec<u8> = Vec::new();
        let mut k: u8 = 0;
        while k < 11
            invariant
                0 <= k <= 11,
                f@ == fields_upto(self@, is_server, k as int),
                f@.len() <= 20 * k,
            decreases 11 - k,
        {
            self.push_field(&mut f, is_server, k);
            k += 1;
        }
        let mut whole: Vec<u8> = Vec::new();
        push_u32(&mut whole, version);
        if is_server {
            whole.push(4);
            push_u32(&mut whole, version);
        }
        assert(whole@ =~= preamble(version, is_server));
        push_u16(&mut whole, f.len() as u16);
        append(&mut whole, f.as_slice());
        whole
    }

    /// Appends the `k`-th parameter in the order of writing, if it is to be
    /// written.
    fn push_field(&self, f: &mut Vec<u8>, is_server: bool, k: u8)
        requires
            k < 11,
        ensures
            final(f)@ == old(f)@ + field_bytes(self@, is_server, k as int),
            final(f)@.len() <= old(f)@.len() + 20,
    {
        if k == 0 {
            if self.idle_timeout != 0 {
                push_tlv16(f, 0x0003, self.idle_timeout);
            }
        } else if k == 1 {
            if self.initial_max_data != 0 {
                push_tlv32(f, 0x0001, self.initial_max_data);
            }
        } else if k == 2 {
            if self.initial_max_bidi_streams != 0 {
                push_tlv16(f, 0x0002, self.initial_max_bidi_streams);
            }
        } else if k == 3 {
            if self.initial_max_uni_streams != 0 {
                push_tlv16(f, 0x0008, self.initial_max_uni_streams);
            }
        } else if k == 4 {
            if self.max_packet_size != 0 {
                push_tlv16(f, 0x0005, self.max_packet_size);
            }
        } else if k == 5 {
            if self.ack_delay_exponent != 0 {
                push_u16(f, 0x0007);
                push_u16(f, 1);
                f.push(self.ack_delay_exponent);
            }
        } else if k == 6 {
            if self.disable_migration {
                push_u16(f, 0x0009);
                push_u16(f, 0);
            }
        } else if k == 7 {
            if self.initial_max_stream_data_bidi_local != 0 {
                push_tlv32(f, 0x0000, self.initial_max_stream_data_bidi_local);
            }
        } else if k == 8 {
            if self.initial_max_stream_data_bidi_remote != 0 {
                push_tlv32(f, 0x000a, self.initial_max_stream_data_bidi_remote);
            }
        } else if k == 9 {
            if self.initial_max_stream_data_uni != 0 {
                push_tlv32(f, 0x000b, self.initial_max_stream_data_uni);
            }
        } else {
            if is_server && self.stateless_reset_token_present {
                push_u16(f, 0x0006);
                push_u16(f, 16);
                append(f, self.stateless_reset_token.as_slice());
            }
        }
        assert(final(f)@ =~= old(f)@ + field_bytes(self@, is_server, k as int));
    }

    /// Takes over one parameter that was read.
    fn apply(&mut self, id: u16, val: &[u8]) -> (r: Result<(), Error>)
        ensures
            match r {
                Ok(_) => apply_param(old(self)@, id, val@) == Ok::<Params, Error>(final(self)@),
                Err(e) => apply_param(old(self)@, id, val@) == Err::<Params, Error>(e),
            },
    {
        let mut v = Bytes::from_slice(val);
        if id == 0x0000 {
            match v.get_u32() {
                Ok(x) => { self.initial_max_stream_data_bidi_local = x; },
                Err(e) => return Err(e),
            }
        } else if id == 0x0001 {
            match v.get_u32() {
                Ok(x) => { self.initial_max_data = x; },
                Err(e) => return Err(e),
            }
        } else if id == 0x0002 {
            match v.get_u16() {
                Ok(x) => { self.initial_max_bidi_streams = x; },
                Err(e) => return Err(e),
            }
        } else if id == 0x0003 {
            match v.get_u16() {
                Ok(x) => { self.idle_timeout = x; },
                Err(e) => return Err(e),
            }
        } else if id == 0x0005 {
            match v.get_u16() {
                Ok(x) => { self.max_packet_size = x; },
                Err(e) => return Err(e),
            }
        } else if id == 0x0006 {
            if val.len() < 16 {
                return Err(Error::BufferTooShort);
            }
            let mut i: usize = 0;
            while i < 16
                invariant
                    0 <= i <= 16,
                    val@.len() >= 16,
                    forall|j: int| 0 <= j < i ==> self.stateless_reset_token@[j] == val@[j],
                    self.idle_timeout == old(self).idle_timeout,
                    self.initial_max_data == old(self).initial_max_data,
                    self.initial_max_bidi_streams == old(self).initial_max_bidi_streams,
                    self.initial_max_uni_streams == old(self).initial_max_uni_streams,
                    self.max_packet_size == old(self).max_packet_size,
                    self.ack_delay_exponent == old(self).ack_delay_exponent,
                    self.disable_migration == old(self).disable_migration,
                    self.max_ack_delay == old(self).max_ack_delay,
                    self.initial_max_stream_data_bidi_local == old(
                        self,
                    ).initial_max_stream_data_bidi_local,
                    self.initial_max_stream_data_bidi_remote == old(
                        self,
                    ).initial_max_stream_data_bidi_remote,
                    self.initial_max_stream_data_uni == old(self).initial_max_stream_data_uni,
                decreases 16 - i,
            {
                self.stateless_reset_token[i] = val[i];
                i += 1;
            }
            self.stateless_reset_token_present = true;
            assert(self.stateless_reset_token@ =~= val@.take(16));
        } else if id == 0x0007 {
            match v.get_u8() {
                Ok(x) => { self.ack_delay_exponent = x; },
                Err(e) => return Err(e),
            }
        } else if id == 0x0008 {
            match v.get_u16() {
                Ok(x) => { self.initial_max_uni_streams = x; },
                Err(e) => return Err(e),
            }
        } else if id == 0x0009 {
            self.disable_migration = true;
        } else if id == 0x000a {
            match v.get_u32() {
                Ok(x) => { self.initial_max_stream_data_bidi_remote = x; },
                Err(e) => return Err(e),
            }
        } else if id == 0x000b {
            match v.get_u32() {
                Ok(x) => { self.initial_max_stream_data_uni = x; },
                Err(e) => return Err(e),
            }
        } else if id == 0x000c {
            match v.get_u8() {
                Ok(x) => { self.max_ack_delay = x; },
                Err(e) => return Err(e),
            }
        }
        Ok(())
    }
}

/// Appends a parameter whose value is a 16-bit integer.
fn push_tlv16(v: &mut Vec<u8>, id: u16, x: u16)
    ensures
        final(v)@ == old(v)@ + tlv(id, u16_bytes(x)),
{
    push_u16(v, id);
    push_u16(v, 2);
    push_u16(v, x);
    assert(v@ =~= old(v)@ + tlv(id, u16_bytes(x)));
}

/// Appends a parameter whose value is a 32-bit integer.
fn push_tlv32(v: &mut Vec<u8>, id: u16, x: u32)
    ensures
        final(v)@ == old(v)@ + tlv(id, u32_bytes(x)),
{
    push_u16(v, id);
    push_u16(v, 4);
    push_u32(v, x);
    assert(v@ =~= old(v)@ + tlv(id, u32_bytes(x)));
}

impl Default for TransportParams {
    fn default() -> (tp: TransportParams)
        ensures
            tp@ == default_params(),
    {
        let tp = TransportParams {
            idle_timeout: 0,
            initial_max_data: 0,
            initial_max_bidi_streams: 0,
            initial_max_uni_streams: 0,
            max_packet_size: 1205,
            ack_delay_exponent: 3,
            disable_migration: false,
            max_ack_delay: 25,
            initial_max_stream_data_bidi_local: 0,
            initial_max_stream_data_bidi_remote: 0,
            initial_max_stream_data_uni: 0,
            stateless_reset_token_present: false,
            stateless_reset_token: [0;16],
        };
        assert(tp.stateless_reset_token@ =~= Seq::new(16, |i: int| 0u8));
        tp
    }
}


/// Whether writing `p` as the given side and reading it back gives `p`
/// again. Three things stand in the way. A number that is zero is not
/// written, so the reader keeps its default: the packet size and the
/// acknowledgement delay exponent, whose defaults are not zero, must not be
/// zero. The greatest acknowledgement delay is never written, so it must be
/// the default. The reset token is written by a server that has one, and by
/// nobody else; a record without one holds zeros in its place.
pub open spec fn survives_encoding(p: Params, is_server: bool) -> bool {
    &&& p.max_packet_size != 0
    &&& p.ack_delay_exponent != 0
    &&& p.max_ack_delay == 25
    &&& p.stateless_reset_token.len() == 16
    &&& if p.stateless_reset_token_present {
        is_server
    } else {
        p.stateless_reset_token == default_params().stateless_reset_token
    }
}

/// The record that a reader holds after the first `k` parameters of `p`.
pub open spec fn read_upto(p: Params, k: int) -> Params {
    let d = default_params();
    Params {
        idle_timeout: if k >= 1 { p.idle_timeout } else { d.idle_timeout },
        initial_max_data: if k >= 2 { p.initial_max_data } else { d.initial_max_data },
        initial_max_bidi_streams: if k >= 3 {
            p.initial_max_bidi_streams
        } else {
            d.initial_max_bidi_streams
        },
        initial_max_uni_streams: if k >= 4 {
            p.initial_max_uni_streams
        } else {
            d.initial_max_uni_streams
        },
        max_packet_size: if k >= 5 { p.max_packet_size } else { d.max_packet_size },
        ack_delay_exponent: if k >= 6 { p.ack_delay_exponent } else { d.ack_delay_exponent },
        disable_migration: if k >= 7 { p.disable_migration } else { d.disable_migration },
        max_ack_delay: d.max_ack_delay,
        initial_max_stream_data_bidi_local: if k >= 8 {
            p.initial_max_stream_data_bidi_local
        } else {
            d.initial_max_stream_data_bidi_local
        },
        initial_max_stream_data_bidi_remote: if k >= 9 {
            p.initial_max_stream_data_bidi_remote
        } else {
            d.initial_max_stream_data_bidi_remote
        },
        initial_max_stream_data_uni: if k >= 10 {
            p.initial_max_stream_data_uni
        } else {
            d.initial_max_stream_data_uni
        },
        stateless_reset_token_present: if k >= 11 {
            p.stateless_reset_token_present
        } else {
            d.stateless_reset_token_present
        },
        stateless_reset_token: if k >= 11 {
            p.stateless_reset_token
        } else {
            d.stateless_reset_token
        },
    }
}

/// Reading the `k`-th parameter of `p`, where it was written, leads from the
/// record after `k` parameters to the record after `k + 1`; where it was not
/// written, the two records are the same.
proof fn lemma_read_step(p: Params, is_server: bool, k: int)
    requires
        survives_encoding(p, is_server),
        0 <= k < 11,
    ensures
        field_present(p, is_server, k) ==> apply_param(
            read_upto(p, k),
            field_id(k),
            field_value(p, k),
        ) == Ok::<Params, Error>(read_upto(p, k + 1)),
        !field_present(p, is_server, k) ==> read_upto(p, k) == read_upto(p, k + 1),
        field_value(p, k).len() <= 16,
{
    let v = field_value(p, k);
    if field_present(p, is_server, k) {
        if k == 0 || k == 2 || k == 3 || k == 4 {
            let x: u16 = if k == 0 {
                p.idle_timeout
            } else if k == 2 {
                p.initial_max_bidi_streams
            } else if k == 3 {
                p.initial_max_uni_streams
            } else {
                p.max_packet_size
            };
            assert(v.subrange(0, 2) =~= u16_bytes(x));
            lemma_u16_roundtrip(x, v, 0);
        } else if k == 1 || k == 7 || k == 8 || k == 9 {
            let x: u32 = if k == 1 {
                p.initial_max_data
            } else if k == 7 {
                p.initial_max_stream_data_bidi_local
            } else if k == 8 {
                p.initial_max_stream_data_bidi_remote
            } else {
                p.initial_max_stream_data_uni
            };
            assert(v.subrange(0, 4) =~= u32_bytes(x));
            lemma_u32_roundtrip(x, v, 0);
        } else if k == 10 {
            assert(v.take(16) =~= p.stateless_reset_token);
        }
    }
}

/// The wire form of the first `j` parameters is the start of the wire form of
/// the first `k`.
proof fn lemma_fields_prefix(p: Params, is_server: bool, j: int, k: int)
    requires
        0 <= j <= k,
    ensures
        fields_upto(p, is_server, j).len() <= fields_upto(p, is_server, k).len(),
        fields_upto(p, is_server, k).take(fields_upto(p, is_server, j).len() as int)
            == fields_upto(p, is_server, j),
    decreases k - j,
{
    let a = fields_upto(p, is_server, j);
    let b = fields_upto(p, is_server, k);
    if j == k {
        assert(b.take(a.len() as int) =~= a);
    } else {
        lemma_fields_prefix(p, is_server, j, k - 1);
        let c = fields_upto(p, is_server, k - 1);
        assert(b == c + field_bytes(p, is_server, k - 1));
        assert(b.take(a.len() as int) =~= c.take(a.len() as int));
    }
}

/// Where one parameter stands at `at`, reading from there takes it over and
/// goes on behind it.
proof fn lemma_tlv_at(s: Seq<u8>, at: int, id: u16, val: Seq<u8>, q: Params)
    requires
        0 <= at,
        val.len() < 0x1_0000,
        at + 4 + val.len() <= s.len(),
        s.subrange(at, at + 4 + val.len()) == tlv(id, val),
    ensures
        decode_fields(s, at, q) == match apply_param(q, id, val) {
            Ok(r) => decode_fields(s, at + 4 + val.len(), r),
            Err(e) => Err(e),
        },
{
    let t = tlv(id, val);
    let w = s.subrange(at, at + 4 + val.len());
    assert(s.subrange(at, at + 2) =~= w.subrange(0, 2));
    assert(w.subrange(0, 2) =~= u16_bytes(id));
    lemma_u16_roundtrip(id, s, at);
    assert(s.subrange(at + 2, at + 4) =~= w.subrange(2, 4));
    assert(w.subrange(2, 4) =~= u16_bytes(val.len() as u16));
    lemma_u16_roundtrip(val.len() as u16, s, at + 2);
    assert(s.subrange(at + 4, at + 4 + val.len()) =~= w.subrange(4, 4 + val.len() as int));
    assert(w.subrange(4, 4 + val.len() as int) =~= val);
}

/// Where a sequence starts with `b` followed by `c`, `c` stands in it
/// behind `b`.
proof fn lemma_part_at(all: Seq<u8>, b: Seq<u8>, c: Seq<u8>)
    requires
        b.len() + c.len() <= all.len(),
        all.take((b.len() + c.len()) as int) == b + c,
    ensures
        all.subrange(b.len() as int, (b.len() + c.len()) as int) == c,
{
    let n = (b.len() + c.len()) as int;
    assert forall|m: int| 0 <= m < c.len() implies #[trigger] all.subrange(b.len() as int, n)[m]
        == c[m] by {
        assert(all.take(n)[b.len() + m] == (b + c)[b.len() + m]);
    }
    assert(all.subrange(b.len() as int, n) =~= c);
}

/// The `k`-th parameter stands in the wire form of all parameters behind
/// the first `k`.
proof fn lemma_field_at(p: Params, is_server: bool, k: int)
    requires
        0 <= k < 11,
    ensures
        ({
            let all = fields_upto(p, is_server, 11);
            let at = fields_upto(p, is_server, k).len() as int;
            let piece = field_bytes(p, is_server, k);
            &&& at + piece.len() <= all.len()
            &&& all.subrange(at, at + piece.len()) == piece
            &&& fields_upto(p, is_server, k + 1).len() == at + piece.len()
        }),
{
    let all = fields_upto(p, is_server, 11);
    let before = fields_upto(p, is_server, k);
    let piece = field_bytes(p, is_server, k);
    lemma_fields_prefix(p, is_server, k + 1, 11);
    assert(fields_upto(p, is_server, k + 1) == before + piece);
    lemma_part_at(all, before, piece);
}

/// Reading all parameters of `p` from the `k`-th on, starting from the record
/// after `k` parameters, gives `p`.
proof fn lemma_read_fields(p: Params, is_server: bool, k: int)
    requires
        survives_encoding(p, is_server),
        0 <= k <= 11,
    ensures
        decode_fields(
            fields_upto(p, is_server, 11),
            fields_upto(p, is_server, k).len() as int,
            read_upto(p, k),
        ) == Ok::<Params, Error>(p),
    decreases 11 - k,
{
    let all = fields_upto(p, is_server, 11);
    let at = fields_upto(p, is_server, k).len() as int;
    if k == 11 {
        assert(read_upto(p, 11) == p);
    } else {
        lemma_read_fields(p, is_server, k + 1);
        lemma_read_step(p, is_server, k);
        lemma_field_at(p, is_server, k);
        if field_present(p, is_server, k) {
            lemma_tlv_at(all, at, field_id(k), field_value(p, k), read_upto(p, k));
        }
    }
}

/// Transport parameters survive the wire: what one side writes, the other
/// side reads as the same record, for every record that
/// `survives_encoding` admits.
pub proof fn lemma_params_roundtrip(p: Params, version: u32, is_server: bool)
    requires
        survives_encoding(p, is_server),
    ensures
        decode_spec(encode_spec(p, version, is_server), !is_server) == Ok::<Params, Error>(p),
{
    let fields = fields_upto(p, is_server, 11);
    let pre = preamble(version, is_server);
    let e = encode_spec(p, version, is_server);
    lemma_fields_len(p, is_server, 11);
    let at = pre.len() as int;
    assert(e == pre + u16_bytes(fields.len() as u16) + fields);
    assert(u32_bytes(version).len() == 4);
    if is_server {
        assert(pre[4] == 4u8);
        assert(e[4] == pre[4]);
    }
    assert(fields_offset(e, !is_server) == Some(at));
    assert(e.subrange(at, at + 2) =~= u16_bytes(fields.len() as u16));
    lemma_u16_roundtrip(fields.len() as u16, e, at);
    assert(e.subrange(at + 2, at + 2 + fields.len()) =~= fields);
    lemma_read_fields(p, is_server, 0);
    assert(read_upto(p, 0) == default_params());
}

/// The first `k` parameters take at most twenty bytes each, where the reset
/// token has its sixteen.
proof fn lemma_fields_len(p: Params, is_server: bool, k: int)
    requires
        0 <= k <= 11,
        p.stateless_reset_token.len() == 16,
    ensures
        fields_upto(p, is_server, k).len() <= 20 * k,
    decreases k,
{
    if k > 0 {
        lemma_fields_len(p, is_server, k - 1);
    }
}


/// Reading parameters leaves the reset token sixteen bytes long.
pub proof fn lemma_fields_token_len(s: Seq<u8>, i: int, p: Params)
    requires
        p.stateless_reset_token.len() == 16,
    ensures
        decode_fields(s, i, p) matches Ok(q) ==> q.stateless_reset_token.len() == 16,
    decreases s.len() - i,
{
    if i < 0 || i >= s.len() {
    } else if i + 4 > s.len() {
    } else {
        let id = be16(s, i) as u16;
        let n = be16(s, i + 2);
        if i + 4 + n <= s.len() {
            match apply_param(p, id, s.subrange(i + 4, i + 4 + n)) {
                Ok(q) => {
                    lemma_fields_token_len(s, i + 4 + n, q);
                },
                Err(_) => {},
            }
        }
    }
}

/// The reset token of parameters read off the wire is sixteen bytes long.
pub proof fn lemma_decoded_token_len(s: Seq<u8>, is_server: bool)
    ensures
        decode_spec(s, is_server) matches Ok(q) ==> q.stateless_reset_token.len() == 16,
{
    match fields_offset(s, is_server) {
        None => {},
        Some(at) => {
            if !(at + 2 > s.len() || at + 2 + be16(s, at) > s.len()) {
                lemma_fields_token_len(
                    s.subrange(at + 2, at + 2 + be16(s, at)),
                    0,
                    default_params(),
                );
            }
        },
    }
}

} // verus!
