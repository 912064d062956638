use vstd::prelude::*;

use vstd::string::StringSliceAdditionalSpecFns;

use smoltcp::wire::IpAddress;

use crate::reassembly::TcpStream;

verus! {

/// A network address: IPv4 as its 32-bit big-endian value, IPv6 as its
/// 128-bit one.
#[derive(Debug, Clone, Copy, PartialEq, Eq, Structural)]
pub enum Address {
    V4(u32),
    V6(u128),
}

/// The monitored side of a connection.
#[derive(Debug, Clone, Copy, PartialEq, Eq, Structural)]
pub struct Endpoint {
    pub addr: Address,
    pub port: u16,
}

/// What the matcher reads of one transport segment.
#[derive(Debug)]
pub struct Segment {
    pub src_addr: Address,
    pub src_port: u16,
    pub dst_addr: Address,
    pub dst_port: u16,
    pub payload: Vec<u8>,
}

/// Where a segment goes relative to the endpoint. `Both` is a connection of
/// the endpoint to itself: its payload belongs to both directions.
#[derive(Debug, Clone, Copy, PartialEq, Eq, Structural)]
pub enum Direction {
    ToEndpoint,
    FromEndpoint,
    Both,
    Unrelated,
}

pub open spec fn is_to(seg: &Segment, ep: Endpoint) -> bool {
    seg.dst_addr == ep.addr && seg.dst_port == ep.port
}

pub open spec fn is_from(seg: &Segment, ep: Endpoint) -> bool {
    seg.src_addr == ep.addr && seg.src_port == ep.port
}

/// The direction of a segment, from its two sides checked independently.
pub open spec fn direction_of(seg: &Segment, ep: Endpoint) -> Direction {
    if is_to(seg, ep) && is_from(seg, ep) {
        Direction::Both
    } else if is_to(seg, ep) {
        Direction::ToEndpoint
    } else if is_from(seg, ep) {
        Direction::FromEndpoint
    } else {
        Direction::Unrelated
    }
}

pub fn classify(seg: &Segment, ep: &Endpoint) -> (r: Direction)
    ensures
        r == direction_of(seg, *ep),
{
    let to = seg.dst_addr == ep.addr && seg.dst_port == ep.port;
    let from = seg.src_addr == ep.addr && seg.src_port == ep.port;
    if to && from {
        Direction::Both
    } else if to {
        Direction::ToEndpoint
    } else if from {
        Direction::FromEndpoint
    } else {
        Direction::Unrelated
    }
}

/// Appends the segment's payload to the stream of each direction it matches:
/// `inbound` gathers what is sent to the endpoint, `outbound` what it sends.
/// Unrelated segments change neither stream.
pub fn ingest(
    ep: &Endpoint,
    seg: &Segment,
    inbound: &mut TcpStream,
    outbound: &mut TcpStream,
)
    requires
        old(inbound).wf(),
        old(outbound).wf(),
    ensures
        final(inbound).wf(),
        final(outbound).wf(),
        final(inbound).cursor() == old(inbound).cursor(),
        final(outbound).cursor() == old(outbound).cursor(),
        final(inbound).content() == if is_to(seg, *ep) {
            old(inbound).content() + seg.payload@
        } else {
            old(inbound).content()
        },
        final(outbound).content() == if is_from(seg, *ep) {
            old(outbound).content() + seg.payload@
        } else {
            old(outbound).content()
        },
        direction_of(seg, *ep) == Direction::Unrelated ==> final(inbound).content() == old(
            inbound,
        ).content() && final(outbound).content() == old(outbound).content(),
{
    match classify(seg, ep) {
        Direction::ToEndpoint => inbound.push(seg.payload.as_slice()),
        Direction::FromEndpoint => outbound.push(seg.payload.as_slice()),
        Direction::Both => {
            inbound.push(seg.payload.as_slice());
            outbound.push(seg.payload.as_slice());
        },
        Direction::Unrelated => {},
    }
}

/// Why an `address:port` text was refused.
#[derive(Debug, Clone, Copy, PartialEq, Eq, Structural)]
pub enum EndpointParseError {
    /// The text after the last colon is not a port number.
    BadPort,
    /// The text has no colon, so no address.
    MissingAddress,
    /// The text before the last colon is not an IP address.
    BadAddress,
}

pub open spec fn is_digit(c: u8) -> bool {
    0x30 <= c <= 0x39
}

/// The value of a run of decimal digits.
pub open spec fn decimal_value(s: Seq<u8>) -> nat
    decreases s.len(),
{
    if s.len() == 0 {
        0
    } else {
        decimal_value(s.drop_last()) * 10 + (s.last() - 0x30) as nat
    }
}

/// The digits of a port text, after an optional leading `+`.
pub open spec fn port_digits(s: Seq<u8>) -> Seq<u8> {
    if s.len() > 0 && s[0] == 0x2b {
        s.drop_first()
    } else {
        s
    }
}

/// A port text: an optional `+`, then at least one digit, of value at most
/// 65535.
pub open spec fn port_ok(s: Seq<u8>) -> bool {
    let d = port_digits(s);
    &&& d.len() > 0
    &&& forall|i: int| 0 <= i < d.len() ==> is_digit(#[trigger] d[i])
    &&& decimal_value(d) <= 0xffff
}

proof fn lemma_prefix_value(s: Seq<u8>, j: int)
    requires
        0 <= j <= s.len(),
        forall|i: int| 0 <= i < s.len() ==> is_digit(#[trigger] s[i]),
    ensures
        decimal_value(s.subrange(0, j)) <= decimal_value(s),
    decreases s.len(),
{
    if j < s.len() {
        let t = s.drop_last();
        assert forall|i: int| 0 <= i < t.len() implies is_digit(#[trigger] t[i]) by {
            assert(t[i] == s[i]);
        }
        lemma_prefix_value(t, j);
        assert(t.subrange(0, j) =~= s.subrange(0, j));
    } else {
        assert(s.subrange(0, j) =~= s);
    }
}

/// Parses a port number the way Rust's `u16` parser does.
pub fn parse_port(b: &[u8]) -> (r: Option<u16>)
    ensures
        r.is_some() == port_ok(b@),
        r matches Some(p) ==> p == decimal_value(port_digits(b@)),
{
    let ghost d = port_digits(b@);
    let start: usize = if b.len() > 0 && b[0] == 0x2b {
        1
    } else {
        0
    };
    assert(d =~= b@.subrange(start as int, b@.len() as int));
    if start == b.len() {
        return None;
    }
    let mut value: u32 = 0;
    let mut i: usize = start;
    while i < b.len()
        invariant
            start <= i <= b@.len(),
            d == b@.subrange(start as int, b@.len() as int),
            d == port_digits(b@),
            forall|k: int| 0 <= k < i - start ==> is_digit(#[trigger] d[k]),
            value == decimal_value(d.subrange(0, i - start)),
            value <= 0xffff,
        decreases b@.len() - i,
    {
        let c = b[i];
        if c < 0x30 || c > 0x39 {
            assert(d[i - start] == b@[i as int]);
            assert(!is_digit(d[i - start]));
            return None;
        }
        let ghost k = i - start;
        assert(d.subrange(0, k + 1).drop_last() =~= d.subrange(0, k));
        value = value * 10 + (c - 0x30) as u32;
        i = i + 1;
        if value > 0xffff {
            proof {
                if port_ok(b@) {
                    assert(forall|j: int| 0 <= j < d.len() ==> is_digit(#[trigger] d[j]));
                    lemma_prefix_value(d, k + 1);
                }
            }
            return None;
        }
    }
    assert(d.subrange(0, d.len() as int) =~= d);
    Some(value as u16)
}

/// What smoltcp's address parser makes of a text, as the library's address.
pub uninterp spec fn ip_of_text(b: Seq<u8>) -> Option<Address>;

/// Relies on `str::from_utf8` and smoltcp's `IpAddress::from_str`, which
/// reads the usual IPv4 and IPv6 notations; the result depends on the text
/// alone.
#[verifier::external_body]
fn parse_address(b: &[u8]) -> (r: Option<Address>)
    ensures
        r == ip_of_text(b@),
{
    let text = match core::str::from_utf8(b) {
        Ok(text) => text,
        Err(_) => return None,
    };
    match text.parse::<IpAddress>() {
        Ok(IpAddress::Ipv4(a)) => Some(Address::V4(u32::from(a))),
        Ok(IpAddress::Ipv6(a)) => Some(Address::V6(u128::from(a))),
        Err(_) => None,
    }
}

/// The position of the last colon in `s`, if any.
pub open spec fn last_colon(s: Seq<u8>) -> Option<int> {
    if exists|i: int| 0 <= i < s.len() && s[i] == 0x3a {
        Some(choose|i: int| 0 <= i < s.len() && s[i] == 0x3a && forall|j: int| i < j < s.len() ==> s[j] != 0x3a)
    } else {
        None
    }
}

/// Splits `address:port` at the last colon into the port text and the
/// address text; without a colon the whole text is the port and there is no
/// address.
pub fn split_endpoint(b: &[u8]) -> (r: (&[u8], Option<&[u8]>))
    ensures
        match last_colon(b@) {
            Some(i) => {
                &&& r.0@ == b@.subrange(i + 1, b@.len() as int)
                &&& r.1 matches Some(a) && a@ == b@.subrange(0, i)
            },
            None => r.0@ == b@ && r.1 is None,
        },
{
    let mut colon: Option<usize> = None;
    let mut i: usize = b.len();
    while i > 0
        invariant
            i <= b@.len(),
            colon is None ==> forall|j: int| i <= j < b@.len() ==> b@[j] != 0x3a,
            colon matches Some(p) ==> p < b@.len() && b@[p as int] == 0x3a && forall|j: int|
                p < j < b@.len() ==> b@[j] != 0x3a,
        decreases i,
    {
        if colon.is_none() && b[i - 1] == 0x3a {
            colon = Some(i - 1);
        }
        i = i - 1;
    }
    match colon {
        Some(p) => {
            proof {
                let c = last_colon(b@)->0;
                assert(c == p);
            }
            (vstd::slice::slice_subrange(b, p + 1, b.len()), Some(vstd::slice::slice_subrange(b, 0, p)))
        },
        None => (b, None),
    }
}

/// Parses `address:port`, split at the last colon. The port is read first,
/// then the address.
pub fn parse_endpoint(text: &str) -> (r: Result<Endpoint, EndpointParseError>)
    ensures
        ({
            let s = text.spec_bytes();
            let colon = last_colon(s);
            let port_text = match colon {
                Some(i) => s.subrange(i + 1, s.len() as int),
                None => s,
            };
            if !port_ok(port_text) {
                r == Err::<Endpoint, EndpointParseError>(EndpointParseError::BadPort)
            } else if colon is None {
                r == Err::<Endpoint, EndpointParseError>(EndpointParseError::MissingAddress)
            } else {
                match ip_of_text(s.subrange(0, colon->0)) {
                    Some(addr) => r == Ok::<Endpoint, EndpointParseError>(
                        Endpoint { addr, port: decimal_value(port_digits(port_text)) as u16 },
                    ),
                    None => r == Err::<Endpoint, EndpointParseError>(
                        EndpointParseError::BadAddress,
                    ),
                }
            }
        }),
{
    let (port_text, addr_text) = split_endpoint(text.as_bytes());
    let port = match parse_port(port_text) {
        Some(port) => port,
        None => return Err(EndpointParseError::BadPort),
    };
    let addr_text = match addr_text {
        Some(a) => a,
        None => return Err(EndpointParseError::MissingAddress),
    };
    match parse_address(addr_text) {
        Some(addr) => Ok(Endpoint { addr, port }),
        None => Err(EndpointParseError::BadAddress),
    }
}

} // verus!
