use vstd::prelude::*;

use crate::dissect::{be16, be32, carries_tcp, dissect, ip_part, tcp_header_len, tcp_part};
use crate::endpoint::{ingest, Address, Endpoint};
use crate::frame::{decode_frames, parse_frames, views, Frame, FrameDecodeError};
use crate::prologue::{prologue, validate_prologue, PrologueMismatch};
use crate::reassembly::TcpStream;

verus! {

/// The TCP payload of a captured frame.
pub open spec fn packet_payload(d: Seq<u8>) -> Seq<u8> {
    let tcp = tcp_part(ip_part(d));
    tcp.subrange(tcp_header_len(tcp) as int, tcp.len() as int)
}

/// A captured frame carries TCP sent to the endpoint.
pub open spec fn packet_to(d: Seq<u8>, ep: Endpoint) -> bool {
    &&& carries_tcp(d)
    &&& Address::V4(be32(ip_part(d), 16) as u32) == ep.addr
    &&& be16(tcp_part(ip_part(d)), 2) == ep.port
}

/// A captured frame carries TCP sent by the endpoint.
pub open spec fn packet_from(d: Seq<u8>, ep: Endpoint) -> bool {
    &&& carries_tcp(d)
    &&& Address::V4(be32(ip_part(d), 12) as u32) == ep.addr
    &&& be16(tcp_part(ip_part(d)), 0) == ep.port
}

/// One ingestion step: the TCP payload of a captured frame goes to `inbound`
/// when it is sent to the endpoint and to `outbound` when the endpoint sends
/// it. A frame that does not parse, or that is unrelated to the endpoint,
/// changes neither stream.
pub fn ingest_packet(
    ep: &Endpoint,
    data: &[u8],
    inbound: &mut TcpStream,
    outbound: &mut TcpStream,
)
    requires
        old(inbound).wf(),
        old(outbound).wf(),
    ensures
        final(inbound).wf(),
        final(outbound).wf(),
        final(inbound).cursor() == old(inbound).cursor(),
        final(outbound).cursor() == old(outbound).cursor(),
        final(inbound).content() == if packet_to(data@, *ep) {
            old(inbound).content() + packet_payload(data@)
        } else {
            old(inbound).content()
        },
        final(outbound).content() == if packet_from(data@, *ep) {
            old(outbound).content() + packet_payload(data@)
        } else {
            old(outbound).content()
        },
        !packet_to(data@, *ep) && !packet_from(data@, *ep) ==> final(inbound).content() == old(
            inbound,
        ).content() && final(outbound).content() == old(outbound).content(),
{
    if let Some(seg) = dissect(data) {
        ingest(ep, &seg, inbound, outbound);
    }
}

/// Why one direction could not be decoded to its end.
#[derive(Debug, Clone, Copy, PartialEq, Eq, Structural)]
pub enum DirectionError {
    Prologue(PrologueMismatch),
    Frame(FrameDecodeError),
}

/// What one direction decoded to: the frames in stream order, and how the
/// decoding ended.
#[derive(Debug)]
pub struct DirectionReport {
    pub frames: Vec<Frame>,
    pub result: Result<(), DirectionError>,
}

/// The stream starts with the prologue.
pub open spec fn has_prologue(s: Seq<u8>) -> bool {
    s.len() >= 24 && s.subrange(0, 24) == prologue()
}

/// Checks the prologue at the cursor, then decodes the frames after it.
///
/// Without the prologue no frame is decoded. A frame cut short ends the
/// decoding with the frames before it kept.
pub fn decode_direction(s: &mut TcpStream) -> (r: DirectionReport)
    requires
        old(s).wf(),
    ensures
        final(s).wf(),
        final(s).content() == old(s).content(),
        !has_prologue(old(s).remaining()) ==> r.frames@.len() == 0 && r.result == Err::<
            (),
            DirectionError,
        >(DirectionError::Prologue(PrologueMismatch)),
        has_prologue(old(s).remaining()) ==> {
            let rest = old(s).remaining().subrange(24, old(s).remaining().len() as int);
            &&& views(r.frames@) == parse_frames(rest).0
            &&& r.result.is_ok() == parse_frames(rest).1
            &&& r.result matches Err(e) ==> e == DirectionError::Frame(FrameDecodeError)
        },
        forall|i: int| 0 <= i < r.frames@.len() ==> (#[trigger] r.frames@[i]).wf(),
{
    let ghost rem = s.remaining();
    if validate_prologue(s).is_err() {
        return DirectionReport {
            frames: Vec::new(),
            result: Err(DirectionError::Prologue(PrologueMismatch)),
        };
    }
    assert(s.remaining() =~= rem.subrange(24, rem.len() as int));
    let (frames, outcome) = decode_frames(s);
    let result = match outcome {
        Ok(()) => Ok(()),
        Err(e) => Err(DirectionError::Frame(e)),
    };
    DirectionReport { frames, result }
}

} // verus!
