use quiche::crypto::{derive_initial_key_material, Algorithm, Keys};
use quiche::frame::{parse_frames, Frame};
use quiche::octets::{push_varint, varint_size, Bytes};
use quiche::packet::{
    decode_pkt_num, encode_pkt_num, has_long_header, open_packet, pkt_num_len, seal_packet,
    Header, Type,
};
use quiche::ranges::RangeSet;
use quiche::stream::{RangeBuf, Stream};
use quiche::{Error, TransportParams, VERSION_DRAFT15};

fn hex(s: &str) -> Vec<u8> {
    (0..s.len()).step_by(2).map(|i| u8::from_str_radix(&s[i..i + 2], 16).unwrap()).collect()
}

// ---------------------------------------------------------------------
// The cursor and the integers.

#[test]
fn varint_known_encodings() {
    let cases: [(u64, &str); 9] = [
        (0, "00"),
        (37, "25"),
        (63, "3f"),
        (64, "4040"),
        (15293, "7bbd"),
        (16383, "7fff"),
        (494878333, "9d7f3e7d"),
        (151288809941952652, "c2197c5eff14e88c"),
        (4611686018427387903, "ffffffffffffffff"),
    ];
    for (value, bytes) in cases {
        let mut v = Vec::new();
        push_varint(&mut v, value);
        assert_eq!(v, hex(bytes));
        assert_eq!(varint_size(value), v.len());
        let mut b = Bytes::new(v);
        assert_eq!(b.get_varint(), Ok(value));
        assert_eq!(b.cap(), 0);
    }
}

#[test]
fn varint_roundtrip_at_boundaries() {
    for value in [0u64, 1, 63, 64, 16383, 16384, (1 << 30) - 1, 1 << 30, (1 << 62) - 1] {
        let mut b = Bytes::new(vec![0xaa; 9]);
        assert_eq!(b.put_varint(value), Ok(()));
        let written = b.off();
        assert_eq!(written, varint_size(value));
        b.seek(0).unwrap();
        assert_eq!(b.get_varint(), Ok(value));
        assert_eq!(b.off(), written);
    }
}

#[test]
fn varint_that_is_cut_short() {
    let mut b = Bytes::new(hex("c2197c5eff14e8"));
    assert_eq!(b.get_varint(), Err(Error::BufferTooShort));
    assert_eq!(b.off(), 0);
    let mut b = Bytes::new(Vec::new());
    assert_eq!(b.get_varint(), Err(Error::BufferTooShort));
    let mut b = Bytes::new(vec![0; 3]);
    assert_eq!(b.put_varint(1 << 20), Err(Error::BufferTooShort));
    assert_eq!(b.off(), 0);
    assert_eq!(b.into_vec(), vec![0; 3]);
}

#[test]
fn cursor_reads_integers() {
    let mut b = Bytes::from_slice(&hex("0102030405060708090a0b0c0d0e0f10"));
    assert_eq!(b.len(), 16);
    assert_eq!(b.peek_u8(), Ok(1));
    assert_eq!(b.get_u8(), Ok(1));
    assert_eq!(b.get_u16(), Ok(0x0203));
    assert_eq!(b.get_u32(), Ok(0x04050607));
    assert_eq!(b.off(), 7);
    assert_eq!(b.cap(), 9);
    assert_eq!(b.get_u64(), Ok(0x08090a0b0c0d0e0f));
    assert_eq!(b.get_u16(), Err(Error::BufferTooShort));
    assert_eq!(b.get_u32(), Err(Error::BufferTooShort));
    assert_eq!(b.get_u64(), Err(Error::BufferTooShort));
    assert_eq!(b.off(), 15);
    assert_eq!(b.get_u8(), Ok(0x10));
    assert_eq!(b.get_u8(), Err(Error::BufferTooShort));
    assert_eq!(b.peek_u8(), Err(Error::BufferTooShort));
}

#[test]
fn cursor_reads_bytes() {
    let mut b = Bytes::from_slice(b"hello world");
    assert_eq!(b.peek_bytes(5), Ok(b"hello".to_vec()));
    assert_eq!(b.off(), 0);
    assert_eq!(b.get_bytes(5), Ok(b"hello".to_vec()));
    assert_eq!(b.skip(1), Ok(()));
    assert_eq!(b.get_bytes(6), Err(Error::BufferTooShort));
    assert_eq!(b.peek_bytes(6), Err(Error::BufferTooShort));
    assert_eq!(b.skip(6), Err(Error::BufferTooShort));
    assert_eq!(b.off(), 6);
    assert_eq!(b.split_at(6), Ok((b"hello ".to_vec(), b"world".to_vec())));
    assert_eq!(b.split_at(12), Err(Error::BufferTooShort));
    assert_eq!(b.seek(12), Err(Error::BufferTooShort));
    assert_eq!(b.seek(11), Ok(()));
    assert_eq!(b.cap(), 0);
}

#[test]
fn cursor_writes_integers() {
    let mut b = Bytes::new(vec![0xee; 16]);
    assert_eq!(b.put_u8(1), Ok(()));
    assert_eq!(b.put_u16(0x0203), Ok(()));
    assert_eq!(b.put_u32(0x04050607), Ok(()));
    assert_eq!(b.put_u64(0x08090a0b0c0d0e0f), Ok(()));
    assert_eq!(b.off(), 15);
    assert_eq!(b.put_u16(0xffff), Err(Error::BufferTooShort));
    assert_eq!(b.put_u32(0xffff), Err(Error::BufferTooShort));
    assert_eq!(b.put_u64(0xffff), Err(Error::BufferTooShort));
    assert_eq!(b.put_bytes(b"ab"), Err(Error::BufferTooShort));
    assert_eq!(b.off(), 15);
    assert_eq!(b.put_bytes(b"a"), Ok(()));
    assert_eq!(b.put_u8(0), Err(Error::BufferTooShort));
    assert_eq!(b.into_vec(), hex("0102030405060708090a0b0c0d0e0f61"));
}

// ---------------------------------------------------------------------
// Packet numbers.

#[test]
fn packet_number_length() {
    assert_eq!(pkt_num_len(0, 0), 1);
    assert_eq!(pkt_num_len(127, 0), 1);
    assert_eq!(pkt_num_len(128, 0), 2);
    assert_eq!(pkt_num_len(1128, 1001), 1);
    assert_eq!(pkt_num_len(1129, 1001), 2);
    assert_eq!(pkt_num_len(32767, 0), 2);
    assert_eq!(pkt_num_len(32768, 0), 4);
    assert_eq!(pkt_num_len(5, 1000), 1);
}

#[test]
fn packet_number_encoding() {
    let mut v = Vec::new();
    encode_pkt_num(0x1234_5678_9abc, 1, &mut v);
    encode_pkt_num(0x1234_5678_9abc, 2, &mut v);
    encode_pkt_num(0x1234_5678_9abc, 4, &mut v);
    assert_eq!(v, hex("bc9abc56789abc"));
}

#[test]
fn packet_number_decoding() {
    // The example of the transport draft.
    assert_eq!(decode_pkt_num(0xa82f30ea, 0x9b32, 2), Ok(0xa82f9b32));
    assert_eq!(decode_pkt_num(0, 0, 1), Ok(0));
    assert_eq!(decode_pkt_num(0, 7, 1), Ok(7));
    // Just before and behind a window's end.
    assert_eq!(decode_pkt_num(250, 3, 1), Ok(259));
    assert_eq!(decode_pkt_num(259, 250, 1), Ok(250));
    assert_eq!(decode_pkt_num(0xffff_fff0, 5, 4), Ok(0x1_0000_0005));
    // What cannot be a packet number.
    assert_eq!(decode_pkt_num(0, 0, 3), Err(Error::InvalidPacket));
    assert_eq!(decode_pkt_num(0, 256, 1), Err(Error::InvalidPacket));
    assert_eq!(decode_pkt_num(1 << 62, 0, 1), Err(Error::InvalidPacket));
    assert_eq!(decode_pkt_num((1 << 62) - 1, 1, 1), Err(Error::InvalidPacket));
}

#[test]
fn packet_number_roundtrip() {
    let mut largest: u64 = 0;
    for step in [1u64, 2, 100, 127, 128, 1000, 32767, 32768, 70000, 1 << 20, 1 << 31] {
        for base in [0u64, 255, 256, 65535, 65536, (1 << 32) - 1, 1 << 32, (1 << 40) + 12345] {
            largest = base;
            let pn = largest + step;
            let len = pkt_num_len(pn, largest);
            let mut v = Vec::new();
            encode_pkt_num(pn, len, &mut v);
            let truncated = v.iter().fold(0u64, |a, b| (a << 8) | *b as u64);
            assert_eq!(decode_pkt_num(largest, truncated, len), Ok(pn));
        }
    }
    assert!(largest > 0);
}

#[test]
fn packet_number_beyond_reach_is_misread() {
    // Four bytes tell numbers apart within 2^31 of the one expected, no
    // further.
    let largest = 1u64 << 32;
    let pn = 6442450946;
    let len = pkt_num_len(pn, largest);
    assert_eq!(len, 4);
    let mut v = Vec::new();
    encode_pkt_num(pn, len, &mut v);
    let truncated = v.iter().fold(0u64, |a, b| (a << 8) | *b as u64);
    assert_ne!(decode_pkt_num(largest, truncated, len), Ok(pn));
}

// ---------------------------------------------------------------------
// Transport parameters.

#[test]
fn default_transport_params() {
    let tp = TransportParams::default();
    assert_eq!(tp.max_packet_size, 1205);
    assert_eq!(tp.ack_delay_exponent, 3);
    assert_eq!(tp.max_ack_delay, 25);
    assert_eq!(tp.idle_timeout, 0);
    assert_eq!(tp.initial_max_data, 0);
    assert!(!tp.disable_migration);
    assert!(!tp.stateless_reset_token_present);
    assert_eq!(tp.stateless_reset_token, [0; 16]);

    // As a client writes them: the version, the length of the parameters,
    // and the two that are not zero.
    let raw = tp.to_bytes(VERSION_DRAFT15, false);
    assert_eq!(raw, hex("ff00000f000b0005000204b500070001 03".replace(' ', "").as_str()));
    assert_eq!(TransportParams::decode(&raw, VERSION_DRAFT15, true), Ok(tp));
    // As a server writes them, with its list of versions.
    let raw = tp.to_bytes(VERSION_DRAFT15, true);
    assert_eq!(raw.len(), 22);
    assert_eq!(TransportParams::decode(&raw, VERSION_DRAFT15, false), Ok(tp));
}

#[test]
fn transport_params_that_do_not_survive() {
    // A packet size of zero is not written: the reader keeps its default.
    let tp = TransportParams { max_packet_size: 0, ..TransportParams::default() };
    let raw = tp.to_bytes(VERSION_DRAFT15, false);
    let read = TransportParams::decode(&raw, VERSION_DRAFT15, true).unwrap();
    assert_eq!(read.max_packet_size, 1205);
    // The greatest acknowledgement delay is never written.
    let tp = TransportParams { max_ack_delay: 7, ..TransportParams::default() };
    let raw = tp.to_bytes(VERSION_DRAFT15, false);
    let read = TransportParams::decode(&raw, VERSION_DRAFT15, true).unwrap();
    assert_eq!(read.max_ack_delay, 25);
    // A client writes no reset token.
    let tp = TransportParams {
        stateless_reset_token_present: true,
        stateless_reset_token: [9; 16],
        ..TransportParams::default()
    };
    let raw = tp.to_bytes(VERSION_DRAFT15, false);
    let read = TransportParams::decode(&raw, VERSION_DRAFT15, true).unwrap();
    assert!(!read.stateless_reset_token_present);
    assert_eq!(read.stateless_reset_token, [0; 16]);
}

#[test]
fn transport_params_decoding() {
    // Unknown parameters and the preferred address are passed over; the
    // greatest acknowledgement delay is read.
    let raw = hex("ff00000f0018777700021234000400030a0b0c000c00012a0003000200ff");
    let tp = TransportParams::decode(&raw, VERSION_DRAFT15, true).unwrap();
    assert_eq!(tp.max_ack_delay, 42);
    assert_eq!(tp.idle_timeout, 255);
    assert_eq!(tp.max_packet_size, 1205);
    // A value longer than its parameter asks for is read from its start.
    let raw = hex("ff00000f0007000300030102ff");
    assert_eq!(TransportParams::decode(&raw, VERSION_DRAFT15, true).unwrap().idle_timeout, 0x0102);
    // What is cut short is refused.
    for raw in ["", "ff0000", "ff00000f", "ff00000f00", "ff00000f0005000300", "ff00000f00050003000201", "ff00000f00050003000101", "ff00000f0004000600"] {
        assert_eq!(TransportParams::decode(&hex(raw), VERSION_DRAFT15, true), Err(Error::BufferTooShort));
    }
    // From a server the list of versions comes first.
    assert_eq!(TransportParams::decode(&hex("ff00000f04ff00000f0000"), VERSION_DRAFT15, false), Ok(TransportParams::default()));
    assert_eq!(TransportParams::decode(&hex("ff00000f08ff00000f0000"), VERSION_DRAFT15, false), Err(Error::BufferTooShort));
    // What stands behind the parameters is not looked at.
    assert_eq!(TransportParams::decode(&hex("ff00000f0000ffff"), VERSION_DRAFT15, true), Ok(TransportParams::default()));
}

#[test]
fn transport_params_encoding_needs_room() {
    let tp = TransportParams::default();
    let mut out = [0x42u8; 16];
    assert_eq!(TransportParams::encode(&tp, VERSION_DRAFT15, false, &mut out).err(), Some(Error::BufferTooShort));
    assert_eq!(out, [0x42u8; 16]);
    let mut out = [0x42u8; 20];
    let written = TransportParams::encode(&tp, VERSION_DRAFT15, false, &mut out).unwrap();
    assert_eq!(written.len(), 17);
    assert_eq!(out[17..], [0x42u8; 3]);
    assert_eq!(out[..4], [0xff, 0, 0, 0x0f]);
}

// ---------------------------------------------------------------------
// Frames.

fn ranges_of(items: &[u64]) -> RangeSet {
    let mut r = RangeSet::new();
    for i in items {
        r.push_item(*i);
    }
    r
}

fn all_frames() -> Vec<(Frame, &'static str)> {
    vec![
        (Frame::Padding { len: 3 }, "000000"),
        (Frame::ConnectionClose { error_code: 0x0102, frame_type: 0x18, reason: b"no".to_vec() }, "0201021802 6e6f"),
        (Frame::ApplicationClose { error_code: 7, reason: Vec::new() }, "03000700"),
        (Frame::MaxData { max: 16384 }, "0480004000"),
        (Frame::MaxStreamData { stream_id: 4, max: 64 }, "05044040"),
        (Frame::MaxStreamId { max: 9 }, "0609"),
        (Frame::Ping, "07"),
        (
            Frame::NewConnectionId { seq_num: 1, conn_id: vec![0xa1, 0xa2, 0xa3, 0xa4], reset_token: vec![0x5a; 16] },
            "0b0104a1a2a3a45a5a5a5a5a5a5a5a5a5a5a5a5a5a5a5a",
        ),
        (Frame::ACK { ack_delay: 0, ranges: ranges_of(&[7]) }, "0d07000000"),
        (Frame::ACK { ack_delay: 5, ranges: ranges_of(&[1, 2, 3, 10, 11, 20]) }, "0d1405020007010502"),
        (Frame::NewToken { token: b"tok".to_vec() }, "1903746f6b"),
        (Frame::Crypto { data: RangeBuf::from(b"hs", 1000, false) }, "1843e8026873"),
        (Frame::Stream { stream_id: 8, data: RangeBuf::from(b"abc", 70000, false) }, "1608800111700 3616263"),
        (Frame::Stream { stream_id: 8, data: RangeBuf::from(b"", 5, true) }, "17080500"),
    ]
}

#[test]
fn frames_on_the_wire() {
    for (frame, bytes) in all_frames() {
        let expected = hex(&bytes.replace(' ', ""));
        assert_eq!(frame.encode(), expected, "{:?}", frame);
        assert_eq!(frame.wire_len(), expected.len() as u64, "{:?}", frame);

        // Read where it stands, between other bytes.
        let mut buf = vec![0x07];
        buf.extend_from_slice(&expected);
        buf.push(0x07);
        let mut b = Bytes::new(buf);
        b.skip(1).unwrap();
        assert_eq!(Frame::from_bytes(&mut b), Ok(frame));
        assert_eq!(b.off(), 1 + expected.len());
        assert_eq!(Frame::from_bytes(&mut b), Ok(Frame::Ping));
    }
}

#[test]
fn frames_written_with_cursor() {
    let frame = Frame::MaxStreamData { stream_id: 4, max: 64 };
    let mut b = Bytes::new(vec![0xee; 5]);
    b.skip(1).unwrap();
    assert_eq!(frame.to_bytes(&mut b), Ok(4));
    assert_eq!(b.off(), 5);
    assert_eq!(frame.to_bytes(&mut b), Err(Error::BufferTooShort));
    assert_eq!(b.into_vec(), hex("ee05044040"));
    let mut b = Bytes::new(vec![0xee; 3]);
    assert_eq!(frame.to_bytes(&mut b), Err(Error::BufferTooShort));
    assert_eq!(b.off(), 0);
    assert_eq!(b.into_vec(), vec![0xee; 3]);
}

#[test]
fn frames_cut_short() {
    for (frame, bytes) in all_frames() {
        let full = hex(&bytes.replace(' ', ""));
        if let Frame::Padding { .. } = frame {
            continue;
        }
        for cut in 1..full.len() {
            let mut b = Bytes::from_slice(&full[..cut]);
            let r = Frame::from_bytes(&mut b);
            // A frame that ends with a count of zero reads as a shorter
            // frame; all others are refused.
            if let Ok(f) = &r {
                assert_ne!(*f, frame);
                continue;
            }
            assert_eq!(r, Err(Error::BufferTooShort), "{:?} cut at {}", frame, cut);
            assert_eq!(b.off(), 0);
        }
    }
    let mut b = Bytes::new(Vec::new());
    assert_eq!(Frame::from_bytes(&mut b), Err(Error::BufferTooShort));
}

#[test]
fn padding_is_read_as_one_run() {
    let mut b = Bytes::new(hex("000000000007"));
    assert_eq!(Frame::from_bytes(&mut b), Ok(Frame::Padding { len: 5 }));
    assert_eq!(b.off(), 5);
    assert_eq!(parse_frames(&hex("0000000700")), Ok(vec![Frame::Padding { len: 3 }, Frame::Ping, Frame::Padding { len: 1 }]));
    assert_eq!(parse_frames(&[]), Ok(Vec::new()));
}

#[test]
fn unknown_frames() {
    for ty in [0x01u8, 0x08, 0x09, 0x0a, 0x0c, 0x0e, 0x0f, 0x1a, 0x1f, 0x20, 0xff] {
        let mut b = Bytes::new(vec![ty, 0, 0, 0, 0]);
        assert_eq!(Frame::from_bytes(&mut b), Err(Error::UnknownFrame));
        assert_eq!(b.off(), 0);
    }
    assert_eq!(parse_frames(&hex("07070a")), Err(Error::UnknownFrame));
}

#[test]
fn stream_frame_forms() {
    // Without a length the data reaches to the end; without an offset it
    // starts the stream.
    let mut b = Bytes::new(hex("1008616263"));
    assert_eq!(Frame::from_bytes(&mut b), Ok(Frame::Stream { stream_id: 8, data: RangeBuf::from(b"abc", 0, false) }));
    assert_eq!(b.cap(), 0);
    let mut b = Bytes::new(hex("13080261626307"));
    assert_eq!(Frame::from_bytes(&mut b), Ok(Frame::Stream { stream_id: 8, data: RangeBuf::from(b"ab", 0, true) }));
    assert_eq!(b.off(), 5);
    let mut b = Bytes::new(hex("15080a6162"));
    assert_eq!(Frame::from_bytes(&mut b), Ok(Frame::Stream { stream_id: 8, data: RangeBuf::from(b"ab", 10, true) }));
    // Data that would end above the greatest offset.
    let mut b = Bytes::new(hex("1608ffffffffffffffff0161"));
    assert_eq!(Frame::from_bytes(&mut b), Err(Error::FlowControl));
    let mut b = Bytes::new(hex("18ffffffffffffffff0161"));
    assert_eq!(Frame::from_bytes(&mut b), Err(Error::FlowControl));
    let mut b = Bytes::new(hex("18ffffffffffffffff00"));
    assert_eq!(Frame::from_bytes(&mut b), Ok(Frame::Crypto { data: RangeBuf::from(b"", (1 << 62) - 1, false) }));
}

#[test]
fn ack_frames_that_make_no_sense() {
    // A first range that reaches below zero.
    let mut b = Bytes::new(hex("0d05000006"));
    assert_eq!(Frame::from_bytes(&mut b), Err(Error::InvalidPacket));
    // A gap that reaches below zero.
    let mut b = Bytes::new(hex("0d050001000400"));
    assert_eq!(Frame::from_bytes(&mut b), Err(Error::InvalidPacket));
    // A range that reaches below zero.
    let mut b = Bytes::new(hex("0d0a0001000003"));
    assert_eq!(Frame::from_bytes(&mut b), Ok(Frame::ACK { ack_delay: 0, ranges: RangeSet::from_ranges(vec![(5, 8), (10, 10)]).unwrap() }));
    let mut b = Bytes::new(hex("0d0a0001000009"));
    assert_eq!(Frame::from_bytes(&mut b), Err(Error::InvalidPacket));
    // More ranges announced than listed.
    let mut b = Bytes::new(hex("0d0a0002000000"));
    assert_eq!(Frame::from_bytes(&mut b), Err(Error::BufferTooShort));
}

// ---------------------------------------------------------------------
// Sets of packet numbers.

#[test]
fn ranges_coalesce() {
    let r = ranges_of(&[1, 2, 4, 5, 6, 3]);
    assert_eq!(r.len(), 1);
    assert_eq!(r.get(0), (1, 6));
    assert_eq!(r.first(), Some(1));
    assert_eq!(r.last(), Some(6));
}

#[test]
fn ranges_stay_apart() {
    let mut r = ranges_of(&[10, 12, 20, 0]);
    assert_eq!(r, RangeSet::from_ranges(vec![(0, 0), (10, 10), (12, 12), (20, 20)]).unwrap());
    r.push_item(10);
    r.push_item(20);
    assert_eq!(r.len(), 4);
    r.push_item(11);
    assert_eq!(r, RangeSet::from_ranges(vec![(0, 0), (10, 12), (20, 20)]).unwrap());
    r.push_item(13);
    r.push_item(19);
    r.push_item(1);
    assert_eq!(r, RangeSet::from_ranges(vec![(0, 1), (10, 13), (19, 20)]).unwrap());
    r.push_item(u64::MAX);
    r.push_item(u64::MAX - 1);
    assert_eq!(r.last(), Some(u64::MAX));
    assert_eq!(r.get(3), (u64::MAX - 1, u64::MAX));
    assert_eq!(r.first(), Some(0));
    let copy = r.clone();
    r.clear();
    assert_eq!(r.len(), 0);
    assert_eq!(r.first(), None);
    assert_eq!(r.last(), None);
    assert_eq!(copy.len(), 4);
}

#[test]
fn ranges_must_be_canonical() {
    assert!(RangeSet::from_ranges(vec![]).is_some());
    assert!(RangeSet::from_ranges(vec![(1, 2), (4, 4)]).is_some());
    assert!(RangeSet::from_ranges(vec![(1, 2), (3, 4)]).is_none());
    assert!(RangeSet::from_ranges(vec![(1, 2), (2, 4)]).is_none());
    assert!(RangeSet::from_ranges(vec![(4, 5), (1, 2)]).is_none());
    assert!(RangeSet::from_ranges(vec![(2, 1)]).is_none());
}

// ---------------------------------------------------------------------
// Streams.

#[test]
fn stream_reassembles_in_order() {
    let mut s = Stream::new(100, 100);
    assert!(!s.can_read());
    assert_eq!(s.push_recv(RangeBuf::from(b"world", 5, false)), Ok(()));
    assert_eq!(s.push_recv(RangeBuf::from(b"!", 10, true)), Ok(()));
    assert!(!s.can_read());
    assert_eq!(s.rx_data(), 11);
    assert_eq!(s.pop_recv().data.len(), 0);
    assert_eq!(s.push_recv(RangeBuf::from(b"hello", 0, false)), Ok(()));
    assert!(s.can_read());
    let got = s.pop_recv();
    assert_eq!(got, RangeBuf { data: b"helloworld!".to_vec(), off: 0, fin: true });
    assert!(s.is_fin());
    assert!(!s.can_read());
    let empty = s.pop_recv();
    assert_eq!(empty.data.len(), 0);
    assert_eq!(empty.off(), 11);
}

#[test]
fn stream_first_writer_wins() {
    let mut s = Stream::new(100, 100);
    s.push_recv(RangeBuf::from(b"cd", 2, false)).unwrap();
    s.push_recv(RangeBuf::from(b"gh", 6, false)).unwrap();
    // Reaches over both, and into the gaps around them.
    s.push_recv(RangeBuf::from(b"ABCDEFGHIJ", 0, false)).unwrap();
    assert_eq!(s.pop_recv().data, b"ABcdEFghIJ".to_vec());
    // What was read is not taken again, what lies beyond is.
    s.push_recv(RangeBuf::from(b"xxxxxKL", 5, false)).unwrap();
    assert_eq!(s.pop_recv(), RangeBuf { data: b"KL".to_vec(), off: 10, fin: false });
    s.push_recv(RangeBuf::from(b"zz", 3, false)).unwrap();
    assert!(!s.can_read());
}

#[test]
fn stream_duplicates_change_nothing() {
    let mut s = Stream::new(100, 100);
    for _ in 0..3 {
        s.push_recv(RangeBuf::from(b"abc", 0, false)).unwrap();
        s.push_recv(RangeBuf::from(b"ghi", 6, false)).unwrap();
    }
    assert_eq!(s.pop_recv().data, b"abc".to_vec());
    s.push_recv(RangeBuf::from(b"abc", 0, false)).unwrap();
    assert!(!s.can_read());
    s.push_recv(RangeBuf::from(b"def", 3, false)).unwrap();
    s.push_recv(RangeBuf::from(b"def", 3, false)).unwrap();
    assert_eq!(s.pop_recv(), RangeBuf { data: b"defghi".to_vec(), off: 3, fin: false });
}

#[test]
fn stream_flow_control() {
    let mut s = Stream::new(10, 7);
    assert_eq!(s.max_rx_data(), 10);
    assert_eq!(s.max_tx_data(), 7);
    assert_eq!(s.push_recv(RangeBuf::from(b"0123456789a", 0, false)), Err(Error::FlowControl));
    assert_eq!(s.push_recv(RangeBuf::from(b"a", 10, false)), Err(Error::FlowControl));
    assert_eq!(s.rx_data(), 0);
    assert!(!s.can_read());
    assert_eq!(s.push_recv(RangeBuf::from(b"012345", 0, false)), Ok(()));
    assert!(!s.more_credit());
    assert_eq!(s.pop_recv().data.len(), 6);
    assert!(s.more_credit());
    assert_eq!(s.raise_credit(), 20);
    assert_eq!(s.max_rx_data(), 20);
    assert!(!s.more_credit());
    assert_eq!(s.push_recv(RangeBuf::from(b"6789abcdefghij", 6, false)), Ok(()));
    assert_eq!(s.rx_data(), 20);

    s.raise_max_tx(5);
    assert_eq!(s.max_tx_data(), 7);
    s.raise_max_tx(9);
    assert_eq!(s.max_tx_data(), 9);
    s.add_tx(4);
    assert_eq!(s.tx_data(), 4);
}

#[test]
fn stream_send_queue() {
    let mut s = Stream::new(100, 100);
    assert!(!s.can_write());
    assert_eq!(s.push_send(b"", false), Ok(0));
    assert!(!s.can_write());
    assert_eq!(s.push_send(b"hello", false), Ok(5));
    assert_eq!(s.push_send(b"world", true), Ok(5));
    assert!(s.can_write());
    assert_eq!(s.peek_send(3), RangeBuf { data: b"hel".to_vec(), off: 0, fin: false });
    assert_eq!(s.pop_send(3), RangeBuf { data: b"hel".to_vec(), off: 0, fin: false });
    // No more than the oldest write at a time.
    assert_eq!(s.pop_send(100), RangeBuf { data: b"lo".to_vec(), off: 3, fin: false });
    assert_eq!(s.pop_send(5), RangeBuf { data: b"world".to_vec(), off: 5, fin: true });
    assert!(!s.can_write());
    assert_eq!(s.pop_send(5), RangeBuf { data: Vec::new(), off: 10, fin: false });
    // An empty write that ends the stream is queued.
    assert_eq!(s.push_send(b"", true), Ok(0));
    assert!(s.can_write());
    assert_eq!(s.pop_send(0), RangeBuf { data: Vec::new(), off: 10, fin: true });
}

#[test]
fn range_buf() {
    let b = RangeBuf::from(b"abc", 7, true);
    assert_eq!(b.off(), 7);
    assert_eq!(b.len(), 3);
    assert_eq!(b.max_off(), 10);
    assert!(b.fin());
    assert_eq!(b.clone(), b);
    let d = RangeBuf::default();
    assert_eq!((d.off(), d.len(), d.fin()), (0, 0, false));
    let mut low = RangeBuf::from(b"abcdef", 10, true);
    let high = low.split_off(12);
    assert_eq!(low, RangeBuf { data: b"ab".to_vec(), off: 10, fin: false });
    assert_eq!(high, RangeBuf { data: b"cdef".to_vec(), off: 12, fin: true });
}

// ---------------------------------------------------------------------
// Keys and ciphers.

#[test]
fn aes_gcm_known_answer() {
    // With the packet number zero the nonce is the IV.
    let keys = Keys::new(Algorithm::AES128_GCM, vec![0; 16], vec![0; 12], vec![0; 16]).unwrap();
    let sealed = keys.seal(0, &[], &[0; 16]).unwrap();
    assert_eq!(sealed, hex("0388dace60b6a392f328c2b971b2fe78ab6e47d42cec13bdf53a67b21257bddf"));
    assert_eq!(keys.open(0, &[], &sealed), Ok(vec![0; 16]));
    assert_eq!(keys.seal(0, &[], &[]), Ok(hex("58e2fccefa7e3061367f1d57a4e7455a")));
    assert_eq!(keys.overhead(), 16);
    assert_eq!(keys.alg(), Algorithm::AES128_GCM);
}

#[test]
fn sealing_depends_on_number_and_header() {
    let keys = Keys::from_secret(Algorithm::AES128_GCM, &[7; 32]).unwrap();
    let a = keys.seal(1, b"header", b"payload").unwrap();
    assert_eq!(a.len(), 7 + 16);
    assert_ne!(&a[..7], b"payload");
    assert_ne!(keys.seal(2, b"header", b"payload").unwrap(), a);
    assert_ne!(keys.seal(1, b"headex", b"payload").unwrap(), a);
    assert_eq!(keys.open(1, b"header", &a), Ok(b"payload".to_vec()));
    assert_eq!(keys.open(2, b"header", &a), Err(Error::CryptoFail));
    assert_eq!(keys.open(1, b"headex", &a), Err(Error::CryptoFail));
    assert_eq!(keys.open(1, b"header", &a[..15]), Err(Error::CryptoFail));
    let mut bad = a.clone();
    bad[0] ^= 1;
    assert_eq!(keys.open(1, b"header", &bad), Err(Error::CryptoFail));
}

#[test]
fn every_cipher_seals_and_opens() {
    for (alg, secret_len, key_len) in [(Algorithm::AES128_GCM, 32, 16), (Algorithm::AES256_GCM, 48, 32), (Algorithm::ChaCha20_Poly1305, 32, 32)] {
        assert_eq!(alg.key_len(), key_len);
        let keys = Keys::from_secret(alg, &vec![3; secret_len]).unwrap();
        assert_eq!(keys.key().len(), key_len);
        assert_eq!(keys.hp_key().len(), key_len);
        assert_eq!(keys.iv().len(), 12);
        let sealed = keys.seal(9, b"aad", b"some frames").unwrap();
        assert_eq!(keys.open(9, b"aad", &sealed), Ok(b"some frames".to_vec()));
        let mask = keys.new_mask(&sealed[..16]).unwrap();
        assert_eq!(mask.len(), 5);
        assert_eq!(keys.new_mask(&sealed[..16]), Ok(mask));
        assert_eq!(keys.new_mask(&sealed[..15]), Err(Error::CryptoFail));
        let copy = keys.duplicate();
        assert_eq!(copy.seal(9, b"aad", b"some frames"), Ok(sealed));
    }
}

#[test]
fn header_mask_known_answer() {
    let key = hex("000102030405060708090a0b0c0d0e0f");
    let keys = Keys::new(Algorithm::AES128_GCM, vec![0; 16], vec![0; 12], key).unwrap();
    assert_eq!(keys.new_mask(&hex("00112233445566778899aabbccddeeff")), Ok(hex("69c4e0d86a")));
    let keys = Keys::new(Algorithm::AES128_GCM, vec![0; 16], vec![0; 12], hex("9f50449e04a0e810283a1e9933adedd2")).unwrap();
    assert_eq!(keys.new_mask(&hex("d1b1c98dd7689fb8ec11d242b123dc9b")), Ok(hex("437b9aec36")));
}

#[test]
fn keys_need_the_right_lengths() {
    assert_eq!(Keys::new(Algorithm::AES128_GCM, vec![0; 15], vec![0; 12], vec![0; 16]).err(), Some(Error::CryptoFail));
    assert_eq!(Keys::new(Algorithm::AES128_GCM, vec![0; 16], vec![0; 11], vec![0; 16]).err(), Some(Error::CryptoFail));
    assert_eq!(Keys::new(Algorithm::AES128_GCM, vec![0; 16], vec![0; 12], vec![0; 32]).err(), Some(Error::CryptoFail));
    assert_eq!(Keys::new(Algorithm::AES256_GCM, vec![0; 16], vec![0; 12], vec![0; 16]).err(), Some(Error::CryptoFail));
    assert!(Keys::new(Algorithm::ChaCha20_Poly1305, vec![0; 32], vec![0; 12], vec![0; 32]).is_ok());
}

#[test]
fn initial_keys_known_answer() {
    let cid = hex("8394c8f03e515708");
    // A client seals with the client's secret and opens with the server's.
    let (open, seal) = derive_initial_key_material(&cid, false).unwrap();
    assert_eq!(seal.key(), hex("f2928f2614ad6c20b9bd008e9c89631c"));
    assert_eq!(seal.iv(), hex("ab950b0198637978cf44aab9"));
    assert_eq!(seal.hp_key(), hex("68c3f64e2d6634412b8e3294628d76f1"));
    assert_eq!(open.key(), hex("f56817d0fc595cfc0a2b0bcfb18735ec"));
    assert_eq!(open.iv(), hex("3205035a3c937c902ee4f4d6"));
    assert_eq!(open.hp_key(), hex("a313c86d1373ecbccb3294b14974226c"));
    assert_eq!(open.alg(), Algorithm::AES128_GCM);
    // A server has them the other way round.
    let (s_open, s_seal) = derive_initial_key_material(&cid, true).unwrap();
    assert_eq!(s_open.key(), seal.key());
    assert_eq!(s_seal.key(), open.key());
    assert_eq!(s_seal.iv(), open.iv());
    // Another connection ID gives other keys.
    let (other, _) = derive_initial_key_material(&hex("8394c8f03e515709"), false).unwrap();
    assert_ne!(other.key(), open.key());
}

#[test]
fn keys_from_secret_known_answer() {
    let secret: Vec<u8> = (0..48).collect();
    let keys = Keys::from_secret(Algorithm::AES256_GCM, &secret).unwrap();
    assert_eq!(keys.key(), hex("42a41bac0eac1a0f8b2d002a815a6c80526e67b294aef5cee601bbec69507a2c"));
    assert_eq!(keys.iv(), hex("99ae9b6b1a6f6dc7c241c59d"));
    assert_eq!(keys.hp_key(), hex("3cd7b68f6c22f463e2b453ca14232be4bfd3bbdd0c48a231ed3133fa5f188789"));
    let keys = Keys::from_secret(Algorithm::AES128_GCM, &hex("9f536457f32a1e0ae864bcb3caf1235110630e1d1fb33835bd054170f99bf7dc")).unwrap();
    assert_eq!(keys.key(), hex("f2928f2614ad6c20b9bd008e9c89631c"));
}

// ---------------------------------------------------------------------
// Headers and packets.

#[test]
fn long_header_on_the_wire() {
    let hdr = Header {
        ty: Type::Initial,
        version: VERSION_DRAFT15,
        flags: 0,
        dcid: hex("a1a2a3a4a5a6a7a8"),
        scid: hex("b1b2b3b4"),
        token: None,
    };
    let bytes = hdr.long_to_vec().unwrap();
    assert_eq!(bytes, hex("c0ff00000f51a1a2a3a4a5a6a7a8b1b2b3b400"));
    assert!(has_long_header(bytes[0]));
    let mut b = Bytes::from_slice(&bytes);
    let read = Header::long_from_bytes(&mut b).unwrap();
    assert_eq!(read, Header { flags: 0xc0, ..hdr.clone() });
    assert_eq!(b.cap(), 0);

    let hdr = Header { ty: Type::Handshake, dcid: Vec::new(), scid: vec![7; 18], ..read };
    let bytes = hdr.long_to_vec().unwrap();
    assert_eq!(bytes[..6], hex("e0ff00000f0f")[..]);
    assert_eq!(bytes.len(), 24);
    let mut b = Bytes::new(vec![0; 64]);
    assert_eq!(hdr.long_to_bytes(&mut b), Ok(()));
    assert_eq!(b.off(), 24);
    b.seek(0).unwrap();
    assert_eq!(Header::long_from_bytes(&mut b), Ok(Header { flags: 0xe0, ..hdr.clone() }));
}

#[test]
fn long_header_kinds() {
    for (first, version, ty) in [
        (0xc3u8, 5u32, Ok(Type::Initial)),
        (0xdf, 5, Ok(Type::ZeroRTT)),
        (0xe0, 5, Ok(Type::Handshake)),
        (0xf1, 5, Ok(Type::Retry)),
        (0x80, 0, Ok(Type::VersionNegotiation)),
        (0xff, 0, Ok(Type::VersionNegotiation)),
        (0x80, 5, Err(Error::UnknownPacket)),
        (0xbf, 5, Err(Error::UnknownPacket)),
        (0x7f, 5, Err(Error::WrongForm)),
    ] {
        let mut bytes = vec![first];
        bytes.extend_from_slice(&version.to_be_bytes());
        bytes.extend_from_slice(&hex("10a1a2a3a4"));
        bytes.extend_from_slice(&hex("02c1c2"));
        let mut b = Bytes::new(bytes);
        let r = Header::long_from_bytes(&mut b);
        match ty {
            Ok(ty) => {
                let h = r.unwrap();
                assert_eq!(h.ty, ty);
                assert_eq!(h.flags, first);
                assert_eq!(h.dcid, hex("a1a2a3a4"));
                assert!(h.scid.is_empty());
                assert_eq!(h.token, if ty == Type::Initial { Some(hex("c1c2")) } else { None });
            },
            Err(e) => assert_eq!(r, Err(e)),
        }
    }
}

#[test]
fn headers_that_cannot_be_written_or_read() {
    let hdr = Header { ty: Type::Initial, version: 1, flags: 0, dcid: vec![1; 3], scid: Vec::new(), token: None };
    assert_eq!(hdr.long_to_vec(), Err(Error::InvalidPacket));
    let hdr = Header { dcid: vec![1; 4], scid: vec![1; 19], ..hdr };
    assert_eq!(hdr.long_to_vec(), Err(Error::InvalidPacket));
    let hdr = Header { ty: Type::Application, scid: Vec::new(), ..hdr };
    assert_eq!(hdr.long_to_vec(), Err(Error::InvalidPacket));
    let hdr = Header { ty: Type::VersionNegotiation, ..hdr };
    assert_eq!(hdr.long_to_vec(), Err(Error::InvalidPacket));
    let mut b = Bytes::new(vec![0; 2]);
    let hdr = Header { ty: Type::Handshake, ..hdr };
    assert_eq!(hdr.long_to_bytes(&mut b), Err(Error::BufferTooShort));
    assert_eq!(b.off(), 0);
    for cut in 0..19 {
        let full = hex("c0ff00000f51a1a2a3a4a5a6a7a8b1b2b3b400");
        let mut b = Bytes::from_slice(&full[..cut]);
        assert_eq!(Header::long_from_bytes(&mut b), Err(Error::BufferTooShort));
    }
}

#[test]
fn short_header_on_the_wire() {
    let hdr = Header { ty: Type::Application, version: 0, flags: 0, dcid: hex("a1a2a3"), scid: Vec::new(), token: None };
    assert_eq!(hdr.short_to_vec(), hex("40a1a2a3"));
    assert!(!has_long_header(0x40));
    let mut b = Bytes::from_slice(&hex("5fa1a2a3ff"));
    assert_eq!(Header::short_from_bytes(&mut b, 3), Ok(Header { flags: 0x5f, ..hdr.clone() }));
    assert_eq!(b.off(), 4);
    let mut b = Bytes::from_slice(&hex("5fa1a2"));
    assert_eq!(Header::short_from_bytes(&mut b, 3), Err(Error::BufferTooShort));
    let mut b = Bytes::from_slice(&hex("c0a1a2a3"));
    assert_eq!(Header::short_from_bytes(&mut b, 3), Err(Error::WrongForm));
    let mut b = Bytes::new(vec![0; 4]);
    assert_eq!(hdr.short_to_bytes(&mut b), Ok(()));
    assert_eq!(hdr.short_to_bytes(&mut b), Err(Error::BufferTooShort));
}

#[test]
fn packet_protection_roundtrip() {
    let keys = Keys::from_secret(Algorithm::AES128_GCM, &[5; 32]).unwrap();
    let hdr = Header { ty: Type::Handshake, version: VERSION_DRAFT15, flags: 0, dcid: vec![1; 8], scid: vec![2; 8], token: None };
    let head = hdr.long_to_vec().unwrap();
    let plain = b"\x07\x07\x07some frames".to_vec();
    for (pn, largest) in [(0u64, 0u64), (5, 4), (300, 120), (70000, 3), ((1 << 40) + 5, 1 << 40)] {
        let pn_len = pkt_num_len(pn, largest);
        let packet = seal_packet(&keys, &head, true, pn, pn_len, &plain).unwrap();
        let pn_off = head.len() + 1;
        assert_eq!(packet.len(), pn_off + pn_len + plain.len() + 16);
        // The kind of packet stays readable, the rest of the first byte and
        // the packet number do not.
        assert_eq!(packet[0] & 0xf0, 0xe0);
        assert_eq!(packet[1..head.len()], head[1..]);
        assert_eq!(packet[head.len()] as usize, pn_len + plain.len() + 16);
        let opened = open_packet(&keys, &packet, pn_off, pn_len + plain.len() + 16, largest, true);
        assert_eq!(opened, Ok((pn, pn_len, plain.clone())));
        // What follows the packet in its datagram does not matter.
        let mut datagram = packet.clone();
        datagram.extend_from_slice(b"more");
        assert_eq!(open_packet(&keys, &datagram, pn_off, pn_len + plain.len() + 16, largest, true), opened);
        // With other keys nothing is read.
        let other = Keys::from_secret(Algorithm::AES128_GCM, &[6; 32]).unwrap();
        assert!(open_packet(&other, &packet, pn_off, pn_len + plain.len() + 16, largest, true).is_err());
    }
}

#[test]
fn packets_cut_short() {
    let keys = Keys::from_secret(Algorithm::AES128_GCM, &[5; 32]).unwrap();
    let head = Header { ty: Type::Application, version: 0, flags: 0, dcid: vec![9; 4], scid: Vec::new(), token: None }.short_to_vec();
    let packet = seal_packet(&keys, &head, false, 77, 2, b"\x07\x00").unwrap();
    assert_eq!(packet.len(), 5 + 2 + 2 + 16);
    assert_eq!(open_packet(&keys, &packet, 5, 20, 70, false), Ok((77, 2, vec![7, 0])));
    assert_eq!(open_packet(&keys, &packet, 5, 21, 70, false), Err(Error::BufferTooShort));
    assert_eq!(open_packet(&keys, &packet, 5, 19, 70, false), Err(Error::BufferTooShort));
    assert_eq!(open_packet(&keys, &packet[..24], 5, 19, 70, false), Err(Error::BufferTooShort));
}
