use vstd::prelude::*;

use smoltcp::wire::{EthernetFrame, Ipv4Packet, TcpPacket};

use crate::endpoint::{Address, Segment};

verus! {

/// The EtherType of IPv4.
pub const ETHERTYPE_IPV4: u16 = 0x0800;

/// The 16-bit big-endian value at offset `i`.
pub open spec fn be16(d: Seq<u8>, i: int) -> nat {
    d[i] as nat * 0x100 + d[i + 1] as nat
}

/// The 32-bit big-endian value at offset `i`.
pub open spec fn be32(d: Seq<u8>, i: int) -> nat {
    be16(d, i) * 0x1_0000 + be16(d, i + 2)
}

/// An Ethernet frame holds at least its 14-byte header.
pub open spec fn ethernet_ok(d: Seq<u8>) -> bool {
    d.len() >= 14
}

pub open spec fn ipv4_header_len(d: Seq<u8>) -> nat {
    (d[0] as nat % 16) * 4
}

pub open spec fn ipv4_total_len(d: Seq<u8>) -> nat {
    be16(d, 2)
}

/// An IPv4 packet whose header and total lengths are consistent with each
/// other and with the buffer.
pub open spec fn ipv4_ok(d: Seq<u8>) -> bool {
    &&& d.len() >= 20
    &&& 20 <= ipv4_header_len(d)
    &&& ipv4_header_len(d) <= ipv4_total_len(d)
    &&& ipv4_total_len(d) <= d.len()
}

pub open spec fn tcp_header_len(d: Seq<u8>) -> nat {
    (d[12] as nat / 16) * 4
}

/// A TCP segment that holds its whole header.
pub open spec fn tcp_ok(d: Seq<u8>) -> bool {
    &&& d.len() >= 20
    &&& 20 <= tcp_header_len(d)
    &&& tcp_header_len(d) <= d.len()
}

/// The IPv4 packet inside an Ethernet frame.
pub open spec fn ip_part(d: Seq<u8>) -> Seq<u8> {
    d.subrange(14, d.len() as int)
}

/// The TCP segment inside an IPv4 packet.
pub open spec fn tcp_part(ip: Seq<u8>) -> Seq<u8> {
    ip.subrange(ipv4_header_len(ip) as int, ipv4_total_len(ip) as int)
}

/// A captured frame carries a TCP segment over IPv4 over Ethernet.
pub open spec fn carries_tcp(d: Seq<u8>) -> bool {
    &&& ethernet_ok(d)
    &&& be16(d, 12) == ETHERTYPE_IPV4
    &&& ipv4_ok(ip_part(d))
    &&& tcp_ok(tcp_part(ip_part(d)))
}

/// Relies on smoltcp's `EthernetFrame::new_checked`, `ethertype` and `payload`:
/// a frame is accepted when it holds the 14-byte header; the EtherType is bytes
/// 12 and 13, big-endian, and the payload is everything after the header.
#[verifier::external_body]
fn ethernet_parts(data: &[u8]) -> (r: Option<(u16, &[u8])>)
    ensures
        r.is_some() == ethernet_ok(data@),
        r matches Some((t, p)) ==> t == be16(data@, 12) && p@ == data@.subrange(14, data@.len() as int),
{
    match EthernetFrame::new_checked(data) {
        Ok(frame) => Some((u16::from(frame.ethertype()), frame.payload())),
        Err(_) => None,
    }
}

/// Relies on smoltcp's `Ipv4Packet::new_checked`, `src_addr`, `dst_addr` and
/// `payload`: a packet is accepted when its header length (the low nibble of
/// byte 0, times four) is at least 20 and at most its total length (bytes 2
/// and 3), which fits the buffer; the addresses are bytes 12..16 and 16..20,
/// and the payload runs from the header length to the total length.
#[verifier::external_body]
fn ipv4_parts(data: &[u8]) -> (r: Option<(u32, u32, &[u8])>)
    ensures
        r.is_some() == ipv4_ok(data@),
        r matches Some((src, dst, p)) ==> {
            &&& src == be32(data@, 12)
            &&& dst == be32(data@, 16)
            &&& p@ == tcp_part(data@)
        },
{
    match Ipv4Packet::new_checked(data) {
        Ok(packet) => Some((u32::from(packet.src_addr()), u32::from(packet.dst_addr()), packet.payload())),
        Err(_) => None,
    }
}

/// Relies on smoltcp's `TcpPacket::new_checked`, `src_port`, `dst_port` and
/// `payload`: a segment is accepted when its header length (the high nibble of
/// byte 12, times four) is at least 20 and fits the buffer; the ports are
/// bytes 0..2 and 2..4, and the payload is everything after the header.
#[verifier::external_body]
fn tcp_parts(data: &[u8]) -> (r: Option<(u16, u16, &[u8])>)
    ensures
        r.is_some() == tcp_ok(data@),
        r matches Some((src, dst, p)) ==> {
            &&& src == be16(data@, 0)
            &&& dst == be16(data@, 2)
            &&& p@ == data@.subrange(tcp_header_len(data@) as int, data@.len() as int)
        },
{
    match TcpPacket::new_checked(data) {
        Ok(packet) => Some((packet.src_port(), packet.dst_port(), packet.payload())),
        Err(_) => None,
    }
}

/// Reads the addresses, ports and payload of a TCP segment carried over IPv4
/// in an Ethernet frame. Anything else, or anything too short or inconsistent
/// at one of the three layers, gives `None`.
pub fn dissect(data: &[u8]) -> (r: Option<Segment>)
    ensures
        r.is_some() == carries_tcp(data@),
        r matches Some(seg) ==> {
            let ip = ip_part(data@);
            let tcp = tcp_part(ip);
            &&& seg.src_addr == Address::V4(be32(ip, 12) as u32)
            &&& seg.dst_addr == Address::V4(be32(ip, 16) as u32)
            &&& seg.src_port == be16(tcp, 0)
            &&& seg.dst_port == be16(tcp, 2)
            &&& seg.payload@ == tcp.subrange(tcp_header_len(tcp) as int, tcp.len() as int)
        },
{
    let (ethertype, ip) = match ethernet_parts(data) {
        Some(parts) => parts,
        None => return None,
    };
    if ethertype != ETHERTYPE_IPV4 {
        return None;
    }
    let (src, dst, tcp) = match ipv4_parts(ip) {
        Some(parts) => parts,
        None => return None,
    };
    let (src_port, dst_port, payload) = match tcp_parts(tcp) {
        Some(parts) => parts,
        None => return None,
    };
    Some(
        Segment {
            src_addr: Address::V4(src),
            src_port,
            dst_addr: Address::V4(dst),
            dst_port,
            payload: vstd::slice::slice_to_vec(payload),
        },
    )
}

} // verus!
