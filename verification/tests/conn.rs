use quiche::crypto::{derive_initial_key_material, Algorithm, Keys, Level};
use quiche::frame::{parse_frames, Frame};
use quiche::octets::Bytes;
use quiche::packet::{open_packet, seal_packet, Header, Type};
use quiche::ranges::RangeSet;
use quiche::stream::RangeBuf;
use quiche::tls::Outcome;
use quiche::{Config, Conn, Error, TransportParams, VERSION_DRAFT15};
use ring::rand::SecureRandom;

const LEVELS: [Level; 3] = [Level::Initial, Level::Handshake, Level::Application];

// A stand-in for the TLS handshake. It exchanges four messages, hands out
// fixed secrets at the points where TLS would, and carries the transport
// parameters of each side to the other.
struct Handshake {
    is_server: bool,
    stage: u8,
    params: Vec<u8>,
    peer_params: Option<Vec<u8>>,
    inbox: Vec<(Level, Vec<u8>)>,
}

enum Event {
    Data(Level, Vec<u8>),
    Secrets(Level, Vec<u8>, Vec<u8>),
}

impl Handshake {
    fn new(is_server: bool, params: Vec<u8>) -> Handshake {
        Handshake { is_server, stage: 0, params, peer_params: None, inbox: Vec::new() }
    }

    fn provide_data(&mut self, level: Level, data: Vec<u8>) {
        self.inbox.push((level, data));
    }

    fn take(&mut self, level: Level, tag: &[u8]) -> Option<Vec<u8>> {
        let at = self.inbox.iter().position(|(l, d)| *l == level && d.starts_with(tag))?;
        let (_, data) = self.inbox.remove(at);
        Some(data[tag.len()..].to_vec())
    }

    fn do_handshake(&mut self) -> (Vec<Event>, Outcome) {
        let mut events = Vec::new();
        let client_hs = vec![0x11u8; 32];
        let server_hs = vec![0x22u8; 32];
        let client_app = vec![0x33u8; 32];
        let server_app = vec![0x44u8; 32];
        if self.is_server {
            if self.stage == 0 {
                if let Some(params) = self.take(Level::Initial, b"CH") {
                    self.peer_params = Some(params);
                    events.push(Event::Data(Level::Initial, b"SH".to_vec()));
                    events.push(Event::Secrets(Level::Handshake, client_hs, server_hs));
                    let mut flight = b"EE".to_vec();
                    flight.extend_from_slice(&self.params);
                    events.push(Event::Data(Level::Handshake, flight));
                    events.push(Event::Secrets(Level::Application, client_app, server_app));
                    self.stage = 1;
                }
            } else if self.stage == 1 && self.take(Level::Handshake, b"FIN").is_some() {
                self.stage = 2;
            }
            if self.stage == 2 {
                return (events, Outcome::Complete { peer_params: self.peer_params.clone() });
            }
        } else {
            if self.stage == 0 {
                let mut hello = b"CH".to_vec();
                hello.extend_from_slice(&self.params);
                events.push(Event::Data(Level::Initial, hello));
                self.stage = 1;
            } else if self.stage == 1 {
                if self.take(Level::Initial, b"SH").is_some() {
                    events.push(Event::Secrets(Level::Handshake, server_hs, client_hs));
                    self.stage = 2;
                }
            }
            if self.stage == 2 {
                if let Some(params) = self.take(Level::Handshake, b"EE") {
                    self.peer_params = Some(params);
                    events.push(Event::Secrets(Level::Application, server_app, client_app));
                    events.push(Event::Data(Level::Handshake, b"FIN".to_vec()));
                    self.stage = 3;
                }
            }
            if self.stage == 3 {
                return (events, Outcome::Complete { peer_params: self.peer_params.clone() });
            }
        }
        (events, Outcome::WantRead)
    }
}

// A connection with the handshake that drives it.
struct Endpoint {
    conn: Box<Conn>,
    tls: Handshake,
}

impl Endpoint {
    fn pump(&mut self) -> Outcome {
        if self.conn.is_established() {
            return Outcome::WantRead;
        }
        for level in LEVELS {
            let data = self.conn.handshake_recv(level);
            if !data.is_empty() {
                self.tls.provide_data(level, data);
            }
        }
        let (events, outcome) = self.tls.do_handshake();
        for event in events {
            match event {
                Event::Data(level, data) => {
                    self.conn.add_handshake_data(level, &data).unwrap();
                },
                Event::Secrets(level, read, write) => {
                    self.conn
                        .set_encryption_secrets(level, Algorithm::AES128_GCM, &read, &write)
                        .unwrap();
                },
            }
        }
        outcome
    }

    fn recv(&mut self, buf: &mut [u8]) -> Result<usize, Error> {
        if buf.is_empty() {
            return Err(Error::BufferTooShort);
        }
        let outcome = self.pump();
        self.conn.recv(buf, &outcome)
    }

    fn send(&mut self, out: &mut [u8]) -> Result<usize, Error> {
        if out.is_empty() {
            return Err(Error::BufferTooShort);
        }
        let outcome = self.pump();
        self.conn.send(out, &outcome)
    }

    fn is_established(&self) -> bool {
        self.conn.is_established()
    }
}

fn create_conn(is_server: bool) -> Endpoint {
    let tp = TransportParams::default();

    let mut scid: [u8; 16] = [0; 16];
    ring::rand::SystemRandom::new().fill(&mut scid[..]).unwrap();

    let config = Config {
        version: VERSION_DRAFT15,

        local_conn_id: &scid,

        local_transport_params: &tp,

        tls_server_name: "quic.tech",
        tls_certificate: "examples/cert.crt",
        tls_certificate_key: "examples/cert.key",
    };

    let params = tp.to_bytes(VERSION_DRAFT15, is_server);
    Endpoint { conn: Conn::new(config, is_server).unwrap(), tls: Handshake::new(is_server, params) }
}

fn recv_send(conn: &mut Endpoint, buf: &mut [u8], len: usize) -> usize {
    let mut left = len;

    while left > 0 {
        let read = conn.recv(&mut buf[len - left..len]).unwrap();

        left -= read;
    }

    let mut off = 0;

    while off < buf.len() {
        let write = match conn.send(&mut buf[off..]) {
            Ok(v) => v,

            Err(Error::NothingToDo) => {
                break;
            },

            Err(e) => panic!("SEND FAILED: {:?}", e),
        };

        off += write;
    }

    off
}

#[test]
fn self_handshake() {
    let mut buf = [0; 65535];

    let mut cln = create_conn(false);
    let mut srv = create_conn(true);

    let mut len = cln.send(&mut buf).unwrap();

    while !cln.is_established() && !srv.is_established() {
        len = recv_send(&mut srv, &mut buf, len);
        len = recv_send(&mut cln, &mut buf, len);
    }

    assert!(true);
}

#[test]
fn handshake_establishes_both_sides() {
    let mut buf = [0; 65535];
    let mut cln = create_conn(false);
    let mut srv = create_conn(true);

    let mut len = cln.send(&mut buf).unwrap();
    let mut rounds = 0;
    while !(cln.is_established() && srv.is_established()) {
        assert!(rounds < 8);
        len = recv_send(&mut srv, &mut buf, len);
        len = recv_send(&mut cln, &mut buf, len);
        rounds += 1;
    }
    assert!(cln.is_established());
    assert!(srv.is_established());
}

// ---------------------------------------------------------------------
// Helpers that write and read single packets with known keys.

fn config_with<'a>(scid: &'a [u8], tp: &'a TransportParams) -> Config<'a> {
    Config {
        version: VERSION_DRAFT15,
        local_conn_id: scid,
        local_transport_params: tp,
        tls_server_name: "quic.tech",
        tls_certificate: "examples/cert.crt",
        tls_certificate_key: "examples/cert.key",
    }
}

fn write_packet(keys: &Keys, ty: Type, dcid: &[u8], scid: &[u8], version: u32, pn: u64, frames: &[Frame]) -> Vec<u8> {
    let hdr = Header {
        ty,
        version,
        flags: 0,
        dcid: dcid.to_vec(),
        scid: scid.to_vec(),
        token: None,
    };
    let long = ty != Type::Application;
    let head = if long { hdr.long_to_vec().unwrap() } else { hdr.short_to_vec() };
    let mut payload = Vec::new();
    for f in frames {
        payload.extend_from_slice(&f.encode());
    }
    seal_packet(keys, &head, long, pn, 1, &payload).unwrap()
}

fn read_packet(keys: &Keys, buf: &[u8], dcid_len: usize) -> (Header, u64, Vec<Frame>, usize) {
    let mut b = Bytes::from_slice(buf);
    let long = buf[0] >= 0x80;
    let hdr = if long {
        Header::long_from_bytes(&mut b).unwrap()
    } else {
        Header::short_from_bytes(&mut b, dcid_len).unwrap()
    };
    let payload_len = if long { b.get_varint().unwrap() as usize } else { b.cap() };
    let pn_off = b.off();
    let (pn, _pn_len, plain) = open_packet(keys, buf, pn_off, payload_len, 0, long).unwrap();
    (hdr, pn, parse_frames(&plain).unwrap(), pn_off + payload_len)
}

const SCID: [u8; 8] = [0xc0, 0xc1, 0xc2, 0xc3, 0xc4, 0xc5, 0xc6, 0xc7];
const PEER: [u8; 8] = [0xd0, 0xd1, 0xd2, 0xd3, 0xd4, 0xd5, 0xd6, 0xd7];
const TO_US: [u8; 32] = [0x51; 32];
const FROM_US: [u8; 32] = [0x52; 32];

// A server whose handshake is complete, with keys for the last stage, and
// the keys with which its peer writes to it and reads from it.
fn established(local: &TransportParams, peer: &TransportParams) -> (Box<Conn>, Keys, Keys) {
    let mut conn = Conn::new(config_with(&SCID, local), true).unwrap();
    conn.set_encryption_secrets(Level::Application, Algorithm::AES128_GCM, &TO_US, &FROM_US).unwrap();
    let raw = peer.to_bytes(VERSION_DRAFT15, false);
    conn.do_handshake(&Outcome::Complete { peer_params: Some(raw) }).unwrap();
    assert!(conn.is_established());
    let to_us = Keys::from_secret(Algorithm::AES128_GCM, &TO_US).unwrap();
    let from_us = Keys::from_secret(Algorithm::AES128_GCM, &FROM_US).unwrap();
    (conn, to_us, from_us)
}

fn stream_frame(id: u64, off: u64, data: &[u8], fin: bool) -> Frame {
    Frame::Stream { stream_id: id, data: RangeBuf::from(data, off, fin) }
}

#[test]
fn client_initial_padding() {
    let mut cln = create_conn(false);
    let mut buf = [0; 65535];
    let len = cln.send(&mut buf).unwrap();
    assert!(len >= 1200);

    // The server's keys for the first packets derive from the destination
    // connection ID in the packet.
    let dcid = buf[6..22].to_vec();
    let (open, _seal) = derive_initial_key_material(&dcid, true).unwrap();
    let (hdr, pn, frames, consumed) = read_packet(&open, &buf[..len], 0);
    assert_eq!(hdr.ty, Type::Initial);
    assert_eq!(hdr.version, VERSION_DRAFT15);
    assert_eq!(pn, 0);
    assert_eq!(consumed, len);
    assert_eq!(frames.len(), 2);
    match &frames[0] {
        Frame::Crypto { data } => {
            assert_eq!(data.off(), 0);
            assert!(data.data.starts_with(b"CH"));
        },
        f => panic!("unexpected frame {:?}", f),
    }
    match &frames[1] {
        Frame::Padding { len } => assert!(*len > 1000),
        f => panic!("unexpected frame {:?}", f),
    }

    // The next packet is not padded: nothing is left to send.
    assert_eq!(cln.send(&mut buf), Err(Error::NothingToDo));
}

#[test]
fn client_connection_ids_are_random() {
    let mut a = create_conn(false);
    let mut b = create_conn(false);
    let mut buf_a = [0; 2048];
    let mut buf_b = [0; 2048];
    a.send(&mut buf_a).unwrap();
    b.send(&mut buf_b).unwrap();
    // Sixteen bytes each, as the header's length byte says.
    assert_eq!(buf_a[5] >> 4, 13);
    assert_eq!(buf_b[5] >> 4, 13);
    assert_ne!(buf_a[6..22], buf_b[6..22]);
}

#[test]
fn ack_generation() {
    let tp = TransportParams::default();
    let (mut conn, to_us, from_us) = established(&tp, &tp);
    let mut pkt = write_packet(&to_us, Type::Application, &SCID, &[], 0, 7, &[Frame::Ping, Frame::Padding { len: 8 }]);
    let n = pkt.len();
    assert_eq!(conn.recv(&mut pkt, &Outcome::WantRead), Ok(n));

    let mut out = [0; 2048];
    let len = conn.send(&mut out, &Outcome::WantRead).unwrap();
    let (hdr, pn, frames, _) = read_packet(&from_us, &out[..len], 0);
    assert_eq!(hdr.ty, Type::Application);
    assert_eq!(pn, 0);
    let mut acked = false;
    for f in &frames {
        if let Frame::ACK { ack_delay, ranges } = f {
            assert_eq!(*ack_delay, 0);
            assert_eq!(ranges.len(), 1);
            assert_eq!(ranges.get(0), (7, 7));
            acked = true;
        }
    }
    assert!(acked);

    // The acknowledgement was sent: none is owed any more.
    let len = conn.send(&mut out, &Outcome::WantRead);
    if let Ok(len) = len {
        let (_, _, frames, _) = read_packet(&from_us, &out[..len], 0);
        assert!(frames.iter().all(|f| !matches!(f, Frame::ACK { .. })));
    }
}

#[test]
fn ack_only_packet_is_not_acknowledged() {
    let tp = TransportParams { initial_max_data: 100000, ..TransportParams::default() };
    let (mut conn, to_us, _from_us) = established(&tp, &tp);
    let mut ranges = RangeSet::new();
    ranges.push_item(0);
    let mut pkt = write_packet(&to_us, Type::Application, &SCID, &[], 0, 3, &[Frame::ACK { ack_delay: 0, ranges }]);
    assert!(conn.recv(&mut pkt, &Outcome::WantRead).is_ok());
    let mut out = [0; 2048];
    assert_eq!(conn.send(&mut out, &Outcome::WantRead), Err(Error::NothingToDo));
}

#[test]
fn draining() {
    let tp = TransportParams::default();
    let (mut conn, to_us, _from_us) = established(&tp, &tp);
    let close = Frame::ConnectionClose { error_code: 7, frame_type: 0, reason: b"bye".to_vec() };
    let mut pkt = write_packet(&to_us, Type::Application, &SCID, &[], 0, 1, &[close, Frame::Padding { len: 8 }]);
    assert!(conn.recv(&mut pkt, &Outcome::WantRead).is_ok());
    assert!(conn.is_draining());
    let mut out = [0; 2048];
    assert_eq!(conn.send(&mut out, &Outcome::WantRead), Err(Error::NothingToDo));
    assert_eq!(out[0], 0);
}

#[test]
fn application_close_starts_draining() {
    let tp = TransportParams::default();
    let (mut conn, to_us, _from_us) = established(&tp, &tp);
    let close = Frame::ApplicationClose { error_code: 1, reason: Vec::new() };
    let mut pkt = write_packet(&to_us, Type::Application, &SCID, &[], 0, 1, &[close, Frame::Padding { len: 8 }]);
    assert!(conn.recv(&mut pkt, &Outcome::WantRead).is_ok());
    let mut out = [0; 2048];
    assert_eq!(conn.send(&mut out, &Outcome::WantRead), Err(Error::NothingToDo));
}

#[test]
fn version_mismatch() {
    let tp = TransportParams::default();
    let mut conn = Conn::new(config_with(&SCID, &tp), true).unwrap();
    let dcid = [0xaa; 8];
    let (_open, seal) = derive_initial_key_material(&dcid, false).unwrap();
    let crypto = Frame::Crypto { data: RangeBuf::from(b"hello", 0, false) };
    let mut bad = write_packet(&seal, Type::Initial, &dcid, &PEER, 0x0000_0001, 0, &[Frame::Crypto { data: RangeBuf::from(b"hello", 0, false) }, Frame::Padding { len: 16 }]);
    assert_eq!(conn.recv(&mut bad, &Outcome::WantRead), Err(Error::UnknownVersion));

    // Nothing was taken over from the packet: no handshake data arrived,
    // nothing is to be sent, and a packet of the right version is still the
    // first that the server sees.
    assert!(conn.handshake_recv(Level::Initial).is_empty());
    let mut out = [0; 2048];
    assert_eq!(conn.send(&mut out, &Outcome::WantRead), Err(Error::NothingToDo));
    let mut good = write_packet(&seal, Type::Initial, &dcid, &PEER, VERSION_DRAFT15, 0, &[crypto, Frame::Padding { len: 16 }]);
    let n = good.len();
    assert_eq!(conn.recv(&mut good, &Outcome::WantRead), Ok(n));
    assert_eq!(conn.handshake_recv(Level::Initial), b"hello".to_vec());
}

#[test]
fn flow_control_refused() {
    let local = TransportParams { initial_max_stream_data_bidi_local: 10, ..TransportParams::default() };
    let (mut conn, to_us, _from_us) = established(&local, &TransportParams::default());
    // Bytes up to the limit are taken.
    let mut ok = write_packet(&to_us, Type::Application, &SCID, &[], 0, 0, &[stream_frame(4, 0, b"0123456789", false), Frame::Padding { len: 4 }]);
    assert!(conn.recv(&mut ok, &Outcome::WantRead).is_ok());
    // One byte above the limit is refused, together with what came with it.
    let mut bad = write_packet(
        &to_us,
        Type::Application,
        &SCID,
        &[],
        0,
        1,
        &[stream_frame(8, 0, b"abc", false), stream_frame(4, 10, b"x", false)],
    );
    assert_eq!(conn.recv(&mut bad, &Outcome::WantRead), Err(Error::FlowControl));
    assert_eq!(conn.stream_iter(), vec![4]);
    assert_eq!(conn.stream_recv(8).err(), Some(Error::UnknownStream));
    let got = conn.stream_recv(4).unwrap();
    assert_eq!(got.data, b"0123456789".to_vec());
    assert_eq!(got.off(), 0);
}

#[test]
fn new_stream_beyond_limit_is_refused() {
    let local = TransportParams { initial_max_stream_data_bidi_local: 10, ..TransportParams::default() };
    let (mut conn, to_us, _from_us) = established(&local, &TransportParams::default());
    let mut bad = write_packet(&to_us, Type::Application, &SCID, &[], 0, 0, &[stream_frame(4, 5, b"0123456789", false)]);
    assert_eq!(conn.recv(&mut bad, &Outcome::WantRead), Err(Error::FlowControl));
    assert_eq!(conn.stream_recv(4).err(), Some(Error::UnknownStream));
}

#[test]
fn max_stream_data_raised() {
    let local = TransportParams {
        initial_max_stream_data_bidi_local: 10,
        initial_max_data: 100000,
        ..TransportParams::default()
    };
    let (mut conn, to_us, from_us) = established(&local, &TransportParams::default());
    let mut pkt = write_packet(&to_us, Type::Application, &SCID, &[], 0, 0, &[stream_frame(4, 0, b"012345", false), Frame::Padding { len: 4 }]);
    assert!(conn.recv(&mut pkt, &Outcome::WantRead).is_ok());

    // Before the bytes are read, only the acknowledgement goes out.
    let mut out = [0; 2048];
    let len = conn.send(&mut out, &Outcome::WantRead).unwrap();
    let (_, _, frames, _) = read_packet(&from_us, &out[..len], 0);
    assert!(frames.iter().all(|f| !matches!(f, Frame::MaxStreamData { .. })));

    // Six of ten bytes read: more than half of the window.
    assert_eq!(conn.stream_recv(4).unwrap().data, b"012345".to_vec());
    let len = conn.send(&mut out, &Outcome::WantRead).unwrap();
    let (_, _, frames, _) = read_packet(&from_us, &out[..len], 0);
    let mut raised = 0;
    for f in &frames {
        if let Frame::MaxStreamData { stream_id, max } = f {
            assert_eq!(*stream_id, 4);
            assert_eq!(*max, 20);
            raised += 1;
        }
    }
    assert_eq!(raised, 1);

    // The peer may now send up to the offset 20, and no further.
    let mut more = write_packet(&to_us, Type::Application, &SCID, &[], 0, 1, &[stream_frame(4, 6, b"6789abcdefghij", false)]);
    assert!(conn.recv(&mut more, &Outcome::WantRead).is_ok());
    let mut over = write_packet(&to_us, Type::Application, &SCID, &[], 0, 2, &[stream_frame(4, 20, b"k", false)]);
    assert_eq!(conn.recv(&mut over, &Outcome::WantRead), Err(Error::FlowControl));
    // The limit is not raised twice for the same bytes.
    assert_eq!(conn.send(&mut out, &Outcome::WantRead).map(|_| ()), Ok(()));
    assert_eq!(conn.send(&mut out, &Outcome::WantRead), Err(Error::NothingToDo));
}

#[test]
fn exactly_half_of_the_window_raises_nothing() {
    let local = TransportParams {
        initial_max_stream_data_bidi_local: 10,
        initial_max_data: 100000,
        ..TransportParams::default()
    };
    let (mut conn, to_us, from_us) = established(&local, &TransportParams::default());
    let mut pkt = write_packet(&to_us, Type::Application, &SCID, &[], 0, 0, &[stream_frame(4, 0, b"01234", false), Frame::Padding { len: 4 }]);
    assert!(conn.recv(&mut pkt, &Outcome::WantRead).is_ok());
    assert_eq!(conn.stream_recv(4).unwrap().data.len(), 5);
    let mut out = [0; 2048];
    let len = conn.send(&mut out, &Outcome::WantRead).unwrap();
    let (_, _, frames, _) = read_packet(&from_us, &out[..len], 0);
    assert!(frames.iter().all(|f| !matches!(f, Frame::MaxStreamData { .. })));
}

#[test]
fn stream_roundtrip() {
    let mut buf = [0; 65535];
    let mut cln = create_conn(false);
    let mut srv = create_conn(true);
    // Limits that let the client send and the server receive.
    let tp = TransportParams {
        initial_max_data: 1 << 20,
        initial_max_stream_data_bidi_local: 1 << 16,
        initial_max_stream_data_bidi_remote: 1 << 16,
        ..TransportParams::default()
    };
    let mut scid: [u8; 16] = [0; 16];
    ring::rand::SystemRandom::new().fill(&mut scid[..]).unwrap();
    cln.conn = Conn::new(config_with(&scid, &tp), false).unwrap();
    cln.tls = Handshake::new(false, tp.to_bytes(VERSION_DRAFT15, false));
    ring::rand::SystemRandom::new().fill(&mut scid[..]).unwrap();
    srv.conn = Conn::new(config_with(&scid, &tp), true).unwrap();
    srv.tls = Handshake::new(true, tp.to_bytes(VERSION_DRAFT15, true));

    let mut len = cln.send(&mut buf).unwrap();
    while !(cln.is_established() && srv.is_established()) {
        len = recv_send(&mut srv, &mut buf, len);
        len = recv_send(&mut cln, &mut buf, len);
    }
    len = recv_send(&mut srv, &mut buf, len);
    assert_eq!(len, 0);

    let message: Vec<u8> = (0..3000u32).map(|i| (i % 251) as u8).collect();
    assert_eq!(cln.conn.stream_send(4, &message[..1000], false), Ok(1000));
    assert_eq!(cln.conn.stream_send(4, &message[1000..], true), Ok(2000));

    let mut got = Vec::new();
    let mut fin = false;
    let mut rounds = 0;
    while !fin {
        assert!(rounds < 16);
        rounds += 1;
        // A packet with a short header fills its datagram.
        let mut datagrams: Vec<Vec<u8>> = Vec::new();
        loop {
            match cln.send(&mut buf) {
                Ok(n) => datagrams.push(buf[..n].to_vec()),
                Err(Error::NothingToDo) => break,
                Err(e) => panic!("send failed: {:?}", e),
            }
        }
        // The datagrams arrive twice: what was taken in once is not taken in
        // again.
        for _ in 0..2 {
            for d in &datagrams {
                let mut copy = d.clone();
                assert_eq!(srv.recv(&mut copy), Ok(d.len()));
            }
        }
        for id in srv.conn.stream_iter() {
            assert_eq!(id, 4);
            let b = srv.conn.stream_recv(id).unwrap();
            assert_eq!(b.off() as usize, got.len());
            got.extend_from_slice(&b.data);
            fin = b.fin();
        }
        loop {
            match srv.send(&mut buf) {
                Ok(n) => {
                    let mut copy = buf[..n].to_vec();
                    assert_eq!(cln.recv(&mut copy), Ok(n));
                },
                Err(Error::NothingToDo) => break,
                Err(e) => panic!("send failed: {:?}", e),
            }
        }
    }
    assert_eq!(got, message);
    assert!(srv.conn.stream_iter().is_empty());
    assert_eq!(srv.conn.stream_recv(4).unwrap().data.len(), 0);
}

#[test]
fn recv_consumes_one_packet() {
    let tp = TransportParams::default();
    let mut conn = Conn::new(config_with(&SCID, &tp), true).unwrap();
    let dcid = [0xaa; 8];
    let (_open, seal) = derive_initial_key_material(&dcid, false).unwrap();
    let first = write_packet(&seal, Type::Initial, &dcid, &PEER, VERSION_DRAFT15, 0, &[Frame::Crypto { data: RangeBuf::from(b"one", 0, false) }, Frame::Padding { len: 16 }]);
    let second = write_packet(&seal, Type::Initial, &dcid, &PEER, VERSION_DRAFT15, 1, &[Frame::Crypto { data: RangeBuf::from(b"two", 3, false) }, Frame::Padding { len: 16 }]);
    let mut datagram = first.clone();
    datagram.extend_from_slice(&second);
    let n = conn.recv(&mut datagram, &Outcome::WantRead).unwrap();
    assert_eq!(n, first.len());
    assert!(n <= datagram.len());
    assert_eq!(conn.handshake_recv(Level::Initial), b"one".to_vec());
    let m = conn.recv(&mut datagram[n..], &Outcome::WantRead).unwrap();
    assert_eq!(m, second.len());
    assert_eq!(conn.handshake_recv(Level::Initial), b"two".to_vec());
}

#[test]
fn handshake_data_is_reassembled() {
    let tp = TransportParams::default();
    let mut conn = Conn::new(config_with(&SCID, &tp), true).unwrap();
    let dcid = [0xaa; 8];
    let (_open, seal) = derive_initial_key_material(&dcid, false).unwrap();
    let mut late = write_packet(&seal, Type::Initial, &dcid, &PEER, VERSION_DRAFT15, 1, &[Frame::Crypto { data: RangeBuf::from(b"world", 5, false) }, Frame::Padding { len: 16 }]);
    let mut early = write_packet(&seal, Type::Initial, &dcid, &PEER, VERSION_DRAFT15, 0, &[Frame::Crypto { data: RangeBuf::from(b"hello", 0, false) }, Frame::Padding { len: 16 }]);
    assert!(conn.recv(&mut late, &Outcome::WantRead).is_ok());
    assert!(conn.handshake_recv(Level::Initial).is_empty());
    assert!(conn.recv(&mut early, &Outcome::WantRead).is_ok());
    assert_eq!(conn.handshake_recv(Level::Initial), b"helloworld".to_vec());
}

#[test]
fn recv_errors() {
    let tp = TransportParams::default();
    let mut conn = Conn::new(config_with(&SCID, &tp), true).unwrap();
    let dcid = [0xaa; 8];
    let (_open, seal) = derive_initial_key_material(&dcid, false).unwrap();
    let frames = || vec![Frame::Ping, Frame::Padding { len: 16 }];

    let mut empty: [u8; 0] = [];
    assert_eq!(conn.recv(&mut empty, &Outcome::WantRead), Err(Error::BufferTooShort));

    // A packet cut short.
    let pkt = write_packet(&seal, Type::Initial, &dcid, &PEER, VERSION_DRAFT15, 0, &frames());
    let mut cut = pkt[..pkt.len() - 1].to_vec();
    assert_eq!(conn.recv(&mut cut, &Outcome::WantRead), Err(Error::BufferTooShort));

    // A kind of packet that has no space.
    let mut retry = write_packet(&seal, Type::Retry, &dcid, &PEER, VERSION_DRAFT15, 0, &frames());
    assert_eq!(conn.recv(&mut retry, &Outcome::WantRead), Err(Error::InvalidPacket));

    // A long header without the bit that every kind has.
    let mut unknown = pkt.clone();
    unknown[0] = 0x80;
    assert_eq!(conn.recv(&mut unknown, &Outcome::WantRead), Err(Error::UnknownPacket));

    // A stage without keys.
    let mut early = write_packet(&seal, Type::Handshake, &dcid, &PEER, VERSION_DRAFT15, 0, &frames());
    assert_eq!(conn.recv(&mut early, &Outcome::WantRead), Err(Error::InvalidState));

    // A payload that was tampered with.
    let mut tampered = pkt.clone();
    let last = tampered.len() - 1;
    tampered[last] ^= 1;
    assert_eq!(conn.recv(&mut tampered, &Outcome::WantRead), Err(Error::CryptoFail));

    // A frame of a type that does not exist.
    let hdr = Header { ty: Type::Initial, version: VERSION_DRAFT15, flags: 0, dcid: dcid.to_vec(), scid: PEER.to_vec(), token: None };
    let mut odd = seal_packet(&seal, &hdr.long_to_vec().unwrap(), true, 0, 1, &[0x1f, 0, 0, 0]).unwrap();
    assert_eq!(conn.recv(&mut odd, &Outcome::WantRead), Err(Error::UnknownFrame));

    // A limit for a stream that is not there.
    let mut limit = write_packet(&seal, Type::Initial, &dcid, &PEER, VERSION_DRAFT15, 0, &[Frame::MaxStreamData { stream_id: 4, max: 100 }, Frame::Padding { len: 16 }]);
    assert_eq!(conn.recv(&mut limit, &Outcome::WantRead), Err(Error::UnknownStream));

    // What the handshake reports is passed on.
    let mut good = pkt.clone();
    assert_eq!(conn.recv(&mut good, &Outcome::TlsFail), Err(Error::TlsFail));
    assert_eq!(conn.recv(&mut good, &Outcome::SyscallFail), Err(Error::TlsFail));
    assert_eq!(conn.recv(&mut good, &Outcome::PendingOperation), Err(Error::Again));
    assert_eq!(conn.recv(&mut good, &Outcome::Complete { peer_params: None }), Err(Error::TlsFail));
    assert!(conn.is_established());

    // After all that the packet is still taken in.
    let n = good.len();
    assert_eq!(conn.recv(&mut good, &Outcome::WantWrite), Ok(n));
}

#[test]
fn limit_for_stream_of_same_packet_is_taken() {
    let tp = TransportParams { initial_max_stream_data_bidi_local: 100, ..TransportParams::default() };
    let (mut conn, to_us, _from_us) = established(&tp, &TransportParams::default());
    let mut pkt = write_packet(
        &to_us,
        Type::Application,
        &SCID,
        &[],
        0,
        0,
        &[stream_frame(4, 0, b"abc", false), Frame::MaxStreamData { stream_id: 4, max: 77 }],
    );
    assert!(conn.recv(&mut pkt, &Outcome::WantRead).is_ok());
    assert_eq!(conn.stream_recv(4).unwrap().data, b"abc".to_vec());
}

#[test]
fn send_errors() {
    let tp = TransportParams::default();
    let (mut conn, _to_us, _from_us) = established(&tp, &tp);
    let mut empty: [u8; 0] = [];
    assert_eq!(conn.send(&mut empty, &Outcome::WantRead), Err(Error::BufferTooShort));
    let mut out = [0u8; 2048];
    assert_eq!(conn.send(&mut out, &Outcome::WantRead), Err(Error::NothingToDo));

    // Handshake data for a stage without keys cannot be sent.
    conn.add_handshake_data(Level::Handshake, b"data").unwrap();
    assert_eq!(conn.send(&mut out, &Outcome::WantRead), Err(Error::InvalidState));

    // A buffer with no room for a frame.
    let mut cln = create_conn(false);
    let mut small = [0u8; 40];
    assert_eq!(cln.send(&mut small), Err(Error::BufferTooShort));
    // Nothing was lost: the same data goes out when there is room.
    let mut big = [0u8; 2048];
    assert!(cln.send(&mut big).unwrap() >= 1200);
}

#[test]
fn send_respects_peer_packet_size() {
    let peer = TransportParams { max_packet_size: 200, initial_max_data: 100000, initial_max_stream_data_bidi_remote: 100000, ..TransportParams::default() };
    let (mut conn, _to_us, from_us) = established(&TransportParams::default(), &peer);
    let data = vec![7u8; 1000];
    assert_eq!(conn.stream_send(0, &data, true), Ok(1000));
    let mut out = [0u8; 2048];
    let mut got = Vec::new();
    let mut pn = 0;
    loop {
        let n = match conn.send(&mut out, &Outcome::WantRead) {
            Ok(n) => n,
            Err(Error::NothingToDo) => break,
            Err(e) => panic!("send failed: {:?}", e),
        };
        assert!(n <= 200);
        let (_, number, frames, _) = read_packet(&from_us, &out[..n], 0);
        assert_eq!(number, pn);
        pn += 1;
        for f in frames {
            if let Frame::Stream { stream_id, data } = f {
                assert_eq!(stream_id, 0);
                assert_eq!(data.off() as usize, got.len());
                got.extend_from_slice(&data.data);
            }
        }
    }
    assert_eq!(got, data);
    assert!(pn > 5);
}

#[test]
fn send_respects_peer_flow_control() {
    let peer = TransportParams { initial_max_data: 30, initial_max_stream_data_bidi_remote: 20, ..TransportParams::default() };
    let (mut conn, to_us, from_us) = established(&TransportParams::default(), &peer);
    assert_eq!(conn.stream_send(0, &[1u8; 50], false), Ok(50));
    assert_eq!(conn.stream_send(4, &[2u8; 50], false), Ok(50));
    let mut out = [0u8; 2048];
    let mut sent = vec![0usize; 8];
    for _ in 0..8 {
        let n = match conn.send(&mut out, &Outcome::WantRead) {
            Ok(n) => n,
            Err(Error::NothingToDo) => break,
            Err(e) => panic!("send failed: {:?}", e),
        };
        let (_, _, frames, _) = read_packet(&from_us, &out[..n], 0);
        for f in frames {
            if let Frame::Stream { stream_id, data } = f {
                sent[stream_id as usize] += data.len();
            }
        }
    }
    // Twenty bytes on the first stream, which is all the stream may send, and
    // ten on the second, which is all the connection may send besides.
    assert_eq!(sent[0], 20);
    assert_eq!(sent[4], 10);

    // The peer raises both limits.
    let mut pkt = write_packet(&to_us, Type::Application, &SCID, &[], 0, 0, &[Frame::MaxData { max: 45 }, Frame::MaxStreamData { stream_id: 0, max: 100 }]);
    assert!(conn.recv(&mut pkt, &Outcome::WantRead).is_ok());
    let mut more = 0;
    for _ in 0..8 {
        let n = match conn.send(&mut out, &Outcome::WantRead) {
            Ok(n) => n,
            Err(Error::NothingToDo) => break,
            Err(e) => panic!("send failed: {:?}", e),
        };
        let (_, _, frames, _) = read_packet(&from_us, &out[..n], 0);
        for f in frames {
            if let Frame::Stream { stream_id, data } = f {
                assert_eq!(stream_id, 0);
                more += data.len();
            }
        }
    }
    assert_eq!(more, 15);
}

#[test]
fn stream_api() {
    let tp = TransportParams::default();
    let mut conn = Conn::new(config_with(&SCID, &tp), true).unwrap();
    assert_eq!(conn.stream_recv(4).err(), Some(Error::UnknownStream));
    assert_eq!(conn.stream_send(4, b"hello", false), Ok(5));
    assert_eq!(conn.stream_send(4, b"", false), Ok(0));
    // The stream is there now, with nothing to read.
    let empty = conn.stream_recv(4).unwrap();
    assert_eq!(empty.data.len(), 0);
    assert_eq!(empty.off(), 0);
    assert!(!empty.fin());
    assert!(conn.stream_iter().is_empty());
    // An ID of more than 62 bits names no stream.
    assert_eq!(conn.stream_send(1 << 62, b"x", false), Err(Error::UnknownStream));
}

#[test]
fn identifiers() {
    let tp = TransportParams::default();
    let conn = Conn::new(config_with(&[0xab, 0x01, 0xff, 0x10], &tp), true).unwrap();
    assert_eq!(conn.local_conn_id(), &[0xab, 0x01, 0xff, 0x10]);
    assert_eq!(conn.trace_id(), "ab01ff10");
    assert!(!conn.is_established());
    assert!(!conn.is_draining());
}

#[test]
fn keys_are_set_once() {
    let tp = TransportParams::default();
    let mut conn = Conn::new(config_with(&SCID, &tp), false).unwrap();
    // A client has the keys of the first packets from the start.
    assert_eq!(
        conn.set_encryption_secrets(Level::Initial, Algorithm::AES128_GCM, &TO_US, &FROM_US),
        Err(Error::InvalidState)
    );
    assert_eq!(conn.set_encryption_secrets(Level::Handshake, Algorithm::AES256_GCM, &[1; 48], &[2; 48]), Ok(()));
    assert_eq!(
        conn.set_encryption_secrets(Level::Handshake, Algorithm::AES256_GCM, &[1; 48], &[2; 48]),
        Err(Error::InvalidState)
    );
}

#[test]
fn handshake_completion_takes_peer_limits() {
    let tp = TransportParams::default();
    let mut conn = Conn::new(config_with(&SCID, &tp), true).unwrap();
    // Parameters that cannot be read fail the step, which still counts as
    // the handshake's last.
    assert_eq!(conn.do_handshake(&Outcome::Complete { peer_params: Some(vec![1, 2, 3]) }), Err(Error::BufferTooShort));
    assert!(conn.is_established());
    let mut other = Conn::new(config_with(&SCID, &tp), true).unwrap();
    assert_eq!(other.do_handshake(&Outcome::WantRead), Ok(()));
    assert_eq!(other.do_handshake(&Outcome::WantWrite), Ok(()));
    assert!(!other.is_established());
}
