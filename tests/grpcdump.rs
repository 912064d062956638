use grpcdump::capture::{decode_direction, ingest_packet, DirectionError};
use grpcdump::dissect::dissect;
use grpcdump::endpoint::{
    classify, parse_endpoint, parse_port, split_endpoint, Address, Direction, Endpoint, EndpointParseError,
    Segment,
};
use grpcdump::frame::{decode_frames, encode_frame, next_frame, FrameDecodeError};
use grpcdump::prologue::{prologue_bytes, validate_prologue, PrologueMismatch};
use grpcdump::reassembly::{TcpStream, Underrun};

const MAGIC: &[u8] = b"PRI * HTTP/2.0\r\n\r\nSM\r\n\r\n";

fn ep() -> Endpoint {
    Endpoint { addr: Address::V4(0x0a00_0001), port: 50051 }
}

fn tcp_frame(src: [u8; 4], sport: u16, dst: [u8; 4], dport: u16, payload: &[u8]) -> Vec<u8> {
    let mut d = vec![0u8; 12];
    d.extend_from_slice(&[0x08, 0x00]);
    let total = (20 + 20 + payload.len()) as u16;
    d.extend_from_slice(&[0x45, 0, (total >> 8) as u8, total as u8, 0, 0, 0, 0, 64, 6, 0, 0]);
    d.extend_from_slice(&src);
    d.extend_from_slice(&dst);
    d.extend_from_slice(&sport.to_be_bytes());
    d.extend_from_slice(&dport.to_be_bytes());
    d.extend_from_slice(&[0, 0, 0, 1, 0, 0, 0, 0, 0x50, 0x18, 0xff, 0xff, 0, 0, 0, 0]);
    d.extend_from_slice(payload);
    d
}

fn stream_of(bytes: &[u8]) -> TcpStream {
    let mut s = TcpStream::new();
    s.push(bytes);
    s
}

fn drain(s: &mut TcpStream) -> Vec<u8> {
    let n = s.available();
    s.read(n).unwrap()
}

#[test]
fn push_twice_reads_as_one_push() {
    let mut a = TcpStream::new();
    a.push(&[1, 2, 3]);
    a.push(&[4, 5]);
    let mut b = stream_of(&[1, 2, 3, 4, 5]);
    assert_eq!(drain(&mut a), drain(&mut b));
}

#[test]
fn empty_push_changes_nothing() {
    let mut s = stream_of(&[9]);
    s.push(&[]);
    assert_eq!(s.available(), 1);
}

#[test]
fn reads_are_contiguous_then_underrun() {
    let mut s = stream_of(&[10, 11, 12, 13, 14]);
    assert_eq!(s.read(2), Ok(vec![10, 11]));
    assert_eq!(s.read(3), Ok(vec![12, 13, 14]));
    assert_eq!(s.read(1), Err(Underrun));
    assert_eq!(s.read(0), Ok(vec![]));
}

#[test]
fn underrun_keeps_cursor() {
    let mut s = stream_of(&[1, 2, 3]);
    assert_eq!(s.read(4), Err(Underrun));
    assert_eq!(s.read(3), Ok(vec![1, 2, 3]));
}

#[test]
fn prologue_constant() {
    assert_eq!(prologue_bytes(), MAGIC.to_vec());
}

#[test]
fn prologue_accepted_leaves_cursor_after_it() {
    let mut bytes = MAGIC.to_vec();
    bytes.push(0xaa);
    let mut s = stream_of(&bytes);
    assert_eq!(validate_prologue(&mut s), Ok(()));
    assert_eq!(drain(&mut s), vec![0xaa]);
}

#[test]
fn prologue_one_byte_off_refused() {
    for i in 0..MAGIC.len() {
        let mut bytes = MAGIC.to_vec();
        bytes[i] ^= 1;
        let mut s = stream_of(&bytes);
        assert_eq!(validate_prologue(&mut s), Err(PrologueMismatch));
    }
}

#[test]
fn prologue_short_stream_refused() {
    let mut s = stream_of(&MAGIC[..23]);
    assert_eq!(validate_prologue(&mut s), Err(PrologueMismatch));
    assert_eq!(s.available(), 23);
    let mut e = TcpStream::new();
    assert_eq!(validate_prologue(&mut e), Err(PrologueMismatch));
}

#[test]
fn encode_header_layout() {
    let bytes = encode_frame(4, 1, 0x8123_4567 & 0x7fff_ffff, &[7, 8]);
    assert_eq!(bytes, vec![0, 0, 2, 4, 1, 0x01, 0x23, 0x45, 0x67, 7, 8]);
}

#[test]
fn encode_then_decode_round_trip() {
    let payload: Vec<u8> = (0..300u32).map(|i| i as u8).collect();
    let mut s = stream_of(&encode_frame(0, 0x25, 0x7fff_ffff, &payload));
    let f = next_frame(&mut s).unwrap().unwrap();
    assert_eq!(f.length, 300);
    assert_eq!(f.kind, 0);
    assert_eq!(f.flags, 0x25);
    assert_eq!(f.stream_id, 0x7fff_ffff);
    assert_eq!(f.payload, payload);
    assert!(next_frame(&mut s).unwrap().is_none());
}

#[test]
fn reserved_bit_ignored() {
    let mut s = stream_of(&[0, 0, 0, 8, 0, 0x80, 0, 0, 3]);
    let f = next_frame(&mut s).unwrap().unwrap();
    assert_eq!(f.stream_id, 3);
    assert_eq!(f.kind, 8);
}

#[test]
fn several_frames_in_order() {
    let mut bytes = Vec::new();
    for k in 0..5u8 {
        bytes.extend(encode_frame(k, k, k as u32 * 2 + 1, &vec![k; k as usize]));
    }
    let mut s = stream_of(&bytes);
    let (frames, outcome) = decode_frames(&mut s);
    assert_eq!(outcome, Ok(()));
    assert_eq!(frames.len(), 5);
    for (k, f) in frames.iter().enumerate() {
        assert_eq!(f.kind, k as u8);
        assert_eq!(f.stream_id, k as u32 * 2 + 1);
        assert_eq!(f.payload, vec![k as u8; k]);
    }
}

#[test]
fn empty_stream_decodes_to_nothing() {
    let (frames, outcome) = decode_frames(&mut TcpStream::new());
    assert!(frames.is_empty());
    assert_eq!(outcome, Ok(()));
}

#[test]
fn truncated_payload_keeps_earlier_frames() {
    let mut bytes = encode_frame(1, 0, 1, &[1, 2, 3]);
    bytes.extend(encode_frame(0, 0, 1, &[4]));
    bytes.extend_from_slice(&[0, 0, 5, 0, 0, 0, 0, 0, 1, 9, 9]);
    let mut s = stream_of(&bytes);
    let (frames, outcome) = decode_frames(&mut s);
    assert_eq!(outcome, Err(FrameDecodeError));
    assert_eq!(frames.len(), 2);
    assert_eq!(frames[0].payload, vec![1, 2, 3]);
    assert_eq!(frames[1].payload, vec![4]);
}

#[test]
fn truncated_header_fails() {
    let mut bytes = encode_frame(1, 0, 1, &[]);
    bytes.extend_from_slice(&[0, 0, 0, 1]);
    let (frames, outcome) = decode_frames(&mut stream_of(&bytes));
    assert_eq!(frames.len(), 1);
    assert_eq!(outcome, Err(FrameDecodeError));
}

#[test]
fn classify_all_directions() {
    let seg = |s: u32, sp: u16, d: u32, dp: u16| Segment {
        src_addr: Address::V4(s),
        src_port: sp,
        dst_addr: Address::V4(d),
        dst_port: dp,
        payload: vec![],
    };
    let e = ep();
    assert_eq!(classify(&seg(1, 9, 0x0a00_0001, 50051), &e), Direction::ToEndpoint);
    assert_eq!(classify(&seg(0x0a00_0001, 50051, 1, 9), &e), Direction::FromEndpoint);
    assert_eq!(classify(&seg(0x0a00_0001, 50051, 0x0a00_0001, 50051), &e), Direction::Both);
    assert_eq!(classify(&seg(0x0a00_0001, 50052, 0x0a00_0002, 50051), &e), Direction::Unrelated);
}

#[test]
fn dissect_reads_fields() {
    let d = tcp_frame([192, 168, 1, 2], 4000, [10, 0, 0, 1], 50051, &[1, 2, 3]);
    let seg = dissect(&d).unwrap();
    assert_eq!(seg.src_addr, Address::V4(0xc0a8_0102));
    assert_eq!(seg.dst_addr, Address::V4(0x0a00_0001));
    assert_eq!(seg.src_port, 4000);
    assert_eq!(seg.dst_port, 50051);
    assert_eq!(seg.payload, vec![1, 2, 3]);
}

#[test]
fn dissect_drops_malformed() {
    let d = tcp_frame([1, 2, 3, 4], 1, [10, 0, 0, 1], 50051, &[]);
    assert!(dissect(&d[..13]).is_none());
    assert!(dissect(&d[..30]).is_none());
    let mut not_ip = d.clone();
    not_ip[12] = 0x86;
    not_ip[13] = 0xdd;
    assert!(dissect(&not_ip).is_none());
    let mut short_tcp = d.clone();
    short_tcp[46] = 0x40;
    assert!(dissect(&short_tcp).is_none());
}

#[test]
fn unrelated_packet_changes_nothing() {
    let mut inbound = TcpStream::new();
    let mut outbound = TcpStream::new();
    let e = ep();
    let d = tcp_frame([10, 0, 0, 2], 50051, [10, 0, 0, 3], 50051, &[1, 2, 3]);
    ingest_packet(&e, &d, &mut inbound, &mut outbound);
    ingest_packet(&e, &d[..20], &mut inbound, &mut outbound);
    assert_eq!(inbound.available(), 0);
    assert_eq!(outbound.available(), 0);
}

#[test]
fn self_connection_goes_both_ways() {
    let mut inbound = TcpStream::new();
    let mut outbound = TcpStream::new();
    let d = tcp_frame([10, 0, 0, 1], 50051, [10, 0, 0, 1], 50051, &[5, 6]);
    ingest_packet(&ep(), &d, &mut inbound, &mut outbound);
    assert_eq!(drain(&mut inbound), vec![5, 6]);
    assert_eq!(drain(&mut outbound), vec![5, 6]);
}

#[test]
fn end_to_end_one_settings_frame() {
    let e = parse_endpoint("10.0.0.1:50051").unwrap();
    let mut to_server = MAGIC.to_vec();
    to_server.extend_from_slice(&[0, 0, 0, 4, 0, 0, 0, 0, 0]);
    let mut inbound = TcpStream::new();
    let mut outbound = TcpStream::new();
    let p1 = tcp_frame([10, 0, 0, 9], 40000, [10, 0, 0, 1], 50051, &to_server);
    let p2 = tcp_frame([10, 0, 0, 1], 50051, [10, 0, 0, 9], 40000, MAGIC);
    ingest_packet(&e, &p1, &mut inbound, &mut outbound);
    ingest_packet(&e, &p2, &mut inbound, &mut outbound);
    let inb = decode_direction(&mut inbound);
    assert_eq!(inb.result, Ok(()));
    assert_eq!(inb.frames.len(), 1);
    assert_eq!(inb.frames[0].kind, 4);
    assert_eq!(inb.frames[0].length, 0);
    assert_eq!(inb.frames[0].stream_id, 0);
    let out = decode_direction(&mut outbound);
    assert_eq!(out.result, Ok(()));
    assert!(out.frames.is_empty());
}

#[test]
fn direction_without_prologue() {
    let r = decode_direction(&mut stream_of(&[0, 0, 0, 4, 0, 0, 0, 0, 0]));
    assert_eq!(r.result, Err(DirectionError::Prologue(PrologueMismatch)));
    assert!(r.frames.is_empty());
}

#[test]
fn direction_with_truncated_frame() {
    let mut bytes = MAGIC.to_vec();
    bytes.extend(encode_frame(4, 0, 0, &[]));
    bytes.extend_from_slice(&[0, 0, 9, 0]);
    let r = decode_direction(&mut stream_of(&bytes));
    assert_eq!(r.result, Err(DirectionError::Frame(FrameDecodeError)));
    assert_eq!(r.frames.len(), 1);
}

#[test]
fn endpoint_parsing() {
    assert_eq!(parse_endpoint("10.0.0.1:50051"), Ok(ep()));
    assert_eq!(
        parse_endpoint("::1:80"),
        Ok(Endpoint { addr: Address::V6(1), port: 80 })
    );
    assert_eq!(parse_endpoint("10.0.0.1:+8"), Ok(Endpoint { addr: Address::V4(0x0a00_0001), port: 8 }));
    assert_eq!(parse_endpoint("10.0.0.1:65536"), Err(EndpointParseError::BadPort));
    assert_eq!(parse_endpoint("10.0.0.1:"), Err(EndpointParseError::BadPort));
    assert_eq!(parse_endpoint("10.0.0.1"), Err(EndpointParseError::BadPort));
    assert_eq!(parse_endpoint("8080"), Err(EndpointParseError::MissingAddress));
    assert_eq!(parse_endpoint("host:80"), Err(EndpointParseError::BadAddress));
    assert_eq!(parse_endpoint(":80"), Err(EndpointParseError::BadAddress));
}

#[test]
fn port_parsing() {
    assert_eq!(parse_port(b"0"), Some(0));
    assert_eq!(parse_port(b"65535"), Some(65535));
    assert_eq!(parse_port(b"0065535"), Some(65535));
    assert_eq!(parse_port(b"99999"), None);
    assert_eq!(parse_port(b"+"), None);
    assert_eq!(parse_port(b"-1"), None);
    assert_eq!(parse_port(b"1a"), None);
    assert_eq!(parse_port(b""), None);
}

#[test]
fn endpoint_split_at_last_colon() {
    assert_eq!(split_endpoint(b"fe80::1:443"), (&b"443"[..], Some(&b"fe80::1"[..])));
    assert_eq!(split_endpoint(b"443"), (&b"443"[..], None));
    assert_eq!(split_endpoint(b"a:"), (&b""[..], Some(&b"a"[..])));
}
