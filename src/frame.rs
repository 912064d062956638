use vstd::prelude::*;
use vstd::arithmetic::div_mod::{lemma_fundamental_div_mod, lemma_div_denominator};

use crate::reassembly::TcpStream;

verus! {

/// Size of a frame header on the wire.
pub const HEADER_LEN: usize = 9;

/// A frame as a mathematical value: its header fields and its payload.
pub struct FrameSpec {
    pub kind: u8,
    pub flags: u8,
    pub stream_id: u32,
    pub payload: Seq<u8>,
}

impl FrameSpec {
    /// The fields fit the header: a 24-bit length and a 31-bit stream id.
    pub open spec fn encodable(&self) -> bool {
        &&& self.payload.len() < 0x100_0000
        &&& self.stream_id < 0x8000_0000
    }
}

/// One decoded frame.
#[derive(Debug)]
pub struct Frame {
    pub length: u32,
    pub kind: u8,
    pub flags: u8,
    pub stream_id: u32,
    pub payload: Vec<u8>,
}

impl View for Frame {
    type V = FrameSpec;

    open spec fn view(&self) -> FrameSpec {
        FrameSpec {
            kind: self.kind,
            flags: self.flags,
            stream_id: self.stream_id,
            payload: self.payload@,
        }
    }
}

impl Frame {
    /// The length field agrees with the payload, and both header fields fit.
    pub open spec fn wf(&self) -> bool {
        &&& self.length as nat == self.payload@.len()
        &&& self@.encodable()
    }
}

/// Returned when the stream ends inside a frame header or a frame payload.
#[derive(Debug, Clone, Copy, PartialEq, Eq, Structural)]
pub struct FrameDecodeError;

/// The 24-bit big-endian payload length at the start of a header.
pub open spec fn header_length(h: Seq<u8>) -> nat {
    h[0] as nat * 0x1_0000 + h[1] as nat * 0x100 + h[2] as nat
}

/// The 31-bit stream id at the end of a header; the reserved high bit is
/// dropped.
pub open spec fn header_stream_id(h: Seq<u8>) -> u32 {
    ((h[5] as nat % 0x80) * 0x100_0000 + h[6] as nat * 0x1_0000 + h[7] as nat * 0x100
        + h[8] as nat) as u32
}

/// The frames that a byte sequence decodes to, and whether it ends cleanly
/// (`true`) or inside a header or payload (`false`).
pub open spec fn parse_frames(s: Seq<u8>) -> (Seq<FrameSpec>, bool)
    decreases s.len(),
{
    if s.len() == 0 {
        (Seq::empty(), true)
    } else if s.len() < 9 || s.len() - 9 < header_length(s) {
        (Seq::empty(), false)
    } else {
        let end = 9 + header_length(s);
        let f = FrameSpec {
            kind: s[3],
            flags: s[4],
            stream_id: header_stream_id(s),
            payload: s.subrange(9, end as int),
        };
        let rest = parse_frames(s.subrange(end as int, s.len() as int));
        (seq![f] + rest.0, rest.1)
    }
}

/// The wire form of one frame: its 9-byte header, then its payload.
pub open spec fn encode(f: FrameSpec) -> Seq<u8> {
    let len = f.payload.len();
    let id = f.stream_id as nat;
    seq![
        (len / 0x1_0000) as u8,
        (len / 0x100 % 0x100) as u8,
        (len % 0x100) as u8,
        f.kind,
        f.flags,
        (id / 0x100_0000) as u8,
        (id / 0x1_0000 % 0x100) as u8,
        (id / 0x100 % 0x100) as u8,
        (id % 0x100) as u8,
    ] + f.payload
}

/// The wire form of a sequence of frames, one after the other.
pub open spec fn encode_all(fs: Seq<FrameSpec>) -> Seq<u8>
    decreases fs.len(),
{
    if fs.len() == 0 {
        Seq::empty()
    } else {
        encode(fs[0]) + encode_all(fs.drop_first())
    }
}

pub open spec fn views(fs: Seq<Frame>) -> Seq<FrameSpec> {
    fs.map_values(|f: Frame| f@)
}

proof fn lemma_three_bytes(x: nat)
    requires
        x < 0x100_0000,
    ensures
        x / 0x1_0000 < 0x100,
        (x / 0x1_0000) * 0x1_0000 + (x / 0x100 % 0x100) * 0x100 + x % 0x100 == x,
{
    lemma_fundamental_div_mod(x as int, 0x100);
    let y = x / 0x100;
    lemma_fundamental_div_mod(y as int, 0x100);
    lemma_div_denominator(x as int, 0x100, 0x100);
    assert(x / 0x1_0000 == y / 0x100);
    assert((y / 0x100) * 0x1_0000 + (y % 0x100) * 0x100 == y * 0x100) by (nonlinear_arith)
        requires
            y == 0x100 * (y / 0x100) + y % 0x100,
    ;
}

proof fn lemma_four_bytes(x: nat)
    requires
        x < 0x8000_0000,
    ensures
        x / 0x100_0000 < 0x80,
        (x / 0x100_0000) * 0x100_0000 + (x / 0x1_0000 % 0x100) * 0x1_0000 + (x / 0x100 % 0x100)
            * 0x100 + x % 0x100 == x,
{
    lemma_fundamental_div_mod(x as int, 0x100);
    let y = x / 0x100;
    lemma_div_denominator(x as int, 0x100, 0x100);
    lemma_div_denominator(x as int, 0x1_0000, 0x100);
    assert(y < 0x80_0000);
    lemma_three_bytes(y);
    assert(y / 0x1_0000 == x / 0x100_0000);
    assert(y / 0x100 == x / 0x1_0000);
    assert(x == y * 0x100 + x % 0x100);
    assert((y / 0x1_0000) * 0x100_0000 + (y / 0x100 % 0x100) * 0x1_0000 + (y % 0x100) * 0x100
        == y * 0x100) by (nonlinear_arith)
        requires
            (y / 0x1_0000) * 0x1_0000 + (y / 0x100 % 0x100) * 0x100 + y % 0x100 == y,
    ;
}

/// Decoding an encoded frame gives the frame back, followed by whatever the
/// bytes after it decode to.
pub proof fn lemma_decode_encoded(f: FrameSpec, rest: Seq<u8>)
    requires
        f.encodable(),
    ensures
        parse_frames(encode(f) + rest) == (seq![f] + parse_frames(rest).0, parse_frames(rest).1),
{
    let s = encode(f) + rest;
    let len = f.payload.len() as int;
    lemma_three_bytes(len as nat);
    lemma_four_bytes(f.stream_id as nat);
    assert(header_length(s) == len);
    assert(header_stream_id(s) == f.stream_id);
    assert(s.subrange(9, 9 + len) =~= f.payload);
    assert(s.subrange(9 + len, s.len() as int) =~= rest);
    let g = FrameSpec {
        kind: s[3],
        flags: s[4],
        stream_id: header_stream_id(s),
        payload: s.subrange(9, 9 + len),
    };
    assert(g == f);
}

/// Decoding the wire form of well-formed frames gives exactly those frames,
/// in order, and ends cleanly.
pub proof fn lemma_decode_all(fs: Seq<FrameSpec>)
    requires
        forall|i: int| 0 <= i < fs.len() ==> (#[trigger] fs[i]).encodable(),
    ensures
        parse_frames(encode_all(fs)) == (fs, true),
    decreases fs.len(),
{
    if fs.len() == 0 {
        assert(encode_all(fs) =~= Seq::<u8>::empty());
    } else {
        let tail = fs.drop_first();
        assert(fs[0].encodable());
        assert forall|i: int| 0 <= i < tail.len() implies (#[trigger] tail[i]).encodable() by {
            assert(tail[i] == fs[i + 1]);
        }
        lemma_decode_all(tail);
        lemma_decode_encoded(fs[0], encode_all(tail));
        assert(seq![fs[0]] + tail =~= fs);
    }
}

/// Well-formed frames followed by a header whose declared length is more than
/// the bytes after it: decoding gives exactly those frames and then fails.
pub proof fn lemma_truncated_tail(fs: Seq<FrameSpec>, tail: Seq<u8>)
    requires
        forall|i: int| 0 <= i < fs.len() ==> (#[trigger] fs[i]).encodable(),
        tail.len() >= 9,
        tail.len() - 9 < header_length(tail),
    ensures
        parse_frames(encode_all(fs) + tail) == (fs, false),
    decreases fs.len(),
{
    if fs.len() == 0 {
        assert(encode_all(fs) + tail =~= tail);
    } else {
        let rest = fs.drop_first();
        assert(fs[0].encodable());
        assert forall|i: int| 0 <= i < rest.len() implies (#[trigger] rest[i]).encodable() by {
            assert(rest[i] == fs[i + 1]);
        }
        lemma_truncated_tail(rest, tail);
        lemma_decode_encoded(fs[0], encode_all(rest) + tail);
        assert(encode_all(fs) + tail =~= encode(fs[0]) + (encode_all(rest) + tail));
        assert(seq![fs[0]] + rest =~= fs);
    }
}

/// Lays out one frame on the wire: a 9-byte header, then the payload.
pub fn encode_frame(kind: u8, flags: u8, stream_id: u32, payload: &[u8]) -> (r: Vec<u8>)
    requires
        payload@.len() < 0x100_0000,
        stream_id < 0x8000_0000,
    ensures
        r@ == encode(FrameSpec { kind, flags, stream_id, payload: payload@ }),
{
    let len = payload.len() as u32;
    let mut out: Vec<u8> = Vec::with_capacity(HEADER_LEN + payload.len());
    out.push((len / 0x1_0000) as u8);
    out.push((len / 0x100 % 0x100) as u8);
    out.push((len % 0x100) as u8);
    out.push(kind);
    out.push(flags);
    out.push((stream_id / 0x100_0000) as u8);
    out.push((stream_id / 0x1_0000 % 0x100) as u8);
    out.push((stream_id / 0x100 % 0x100) as u8);
    out.push((stream_id % 0x100) as u8);
    let ghost header = out@;
    let mut i: usize = 0;
    while i < payload.len()
        invariant
            i <= payload@.len(),
            out@ == header + payload@.subrange(0, i as int),
        decreases payload@.len() - i,
    {
        out.push(payload[i]);
        i = i + 1;
        assert(out@ =~= header + payload@.subrange(0, i as int));
    }
    assert(payload@.subrange(0, i as int) =~= payload@);
    let ghost f = FrameSpec { kind, flags, stream_id, payload: payload@ };
    assert(out@ =~= encode(f));
    out
}

proof fn lemma_parse_step(s: Seq<u8>)
    requires
        s.len() >= 9,
        s.len() - 9 >= header_length(s),
    ensures
        ({
            let end = 9 + header_length(s);
            parse_frames(s) == (
                seq![
                    FrameSpec {
                        kind: s[3],
                        flags: s[4],
                        stream_id: header_stream_id(s),
                        payload: s.subrange(9, end as int),
                    },
                ] + parse_frames(s.subrange(end as int, s.len() as int)).0,
                parse_frames(s.subrange(end as int, s.len() as int)).1,
            )
        }),
{
}

/// Decodes the frame at the stream's cursor.
///
/// `Ok(None)` when no byte is left (a clean end); `Ok(Some(f))` with the next
/// frame, the cursor moved past it; `Err` when the stream ends inside the
/// header or inside the payload that the header declares.
pub fn next_frame(s: &mut TcpStream) -> (r: Result<Option<Frame>, FrameDecodeError>)
    requires
        old(s).wf(),
    ensures
        final(s).wf(),
        final(s).content() == old(s).content(),
        old(s).cursor() <= final(s).cursor(),
        match r {
            Ok(None) => old(s).remaining().len() == 0 && final(s).cursor() == old(s).cursor(),
            Ok(Some(f)) => {
                &&& f.wf()
                &&& parse_frames(old(s).remaining()).0.len() > 0
                &&& f@ == parse_frames(old(s).remaining()).0[0]
                &&& parse_frames(final(s).remaining()).0 == parse_frames(
                    old(s).remaining(),
                ).0.drop_first()
                &&& parse_frames(final(s).remaining()).1 == parse_frames(old(s).remaining()).1
                &&& final(s).cursor() >= old(s).cursor() + HEADER_LEN
            },
            Err(_) => parse_frames(old(s).remaining()) == (Seq::<FrameSpec>::empty(), false),
        },
{
    let ghost rem = s.remaining();
    if s.available() == 0 {
        return Ok(None);
    }
    let header = match s.read(HEADER_LEN) {
        Ok(h) => h,
        Err(_) => return Err(FrameDecodeError),
    };
    assert(header@ =~= rem.subrange(0, 9));
    let length: u32 = header[0] as u32 * 0x1_0000 + header[1] as u32 * 0x100 + header[2] as u32;
    let stream_id: u32 = (header[5] % 0x80) as u32 * 0x100_0000 + header[6] as u32 * 0x1_0000
        + header[7] as u32 * 0x100 + header[8] as u32;
    assert(length == header_length(rem));
    assert(stream_id == header_stream_id(rem));
    let ghost mid = s.remaining();
    assert(mid =~= rem.subrange(9, rem.len() as int));
    let payload = match s.read(length as usize) {
        Ok(p) => p,
        Err(_) => return Err(FrameDecodeError),
    };
    let ghost end = 9 + length as int;
    assert(payload@ =~= rem.subrange(9, end));
    assert(s.remaining() =~= rem.subrange(end, rem.len() as int));
    proof {
        lemma_parse_step(rem);
    }
    Ok(Some(Frame { length, kind: header[3], flags: header[4], stream_id, payload }))
}

/// Decodes frames from the cursor to the end of the stream.
///
/// Returns the frames decoded, in stream order, and whether the stream ended
/// cleanly; on a truncated frame the frames before it are still returned.
pub fn decode_frames(s: &mut TcpStream) -> (r: (Vec<Frame>, Result<(), FrameDecodeError>))
    requires
        old(s).wf(),
    ensures
        final(s).wf(),
        final(s).content() == old(s).content(),
        views(r.0@) == parse_frames(old(s).remaining()).0,
        forall|i: int| 0 <= i < r.0@.len() ==> (#[trigger] r.0@[i]).wf(),
        r.1.is_ok() == parse_frames(old(s).remaining()).1,
        r.1.is_ok() ==> final(s).remaining().len() == 0,
{
    let ghost all = parse_frames(s.remaining());
    let mut frames: Vec<Frame> = Vec::new();
    loop
        invariant
            s.wf(),
            s.content() == old(s).content(),
            views(frames@) + parse_frames(s.remaining()).0 == all.0,
            parse_frames(s.remaining()).1 == all.1,
            all == parse_frames(old(s).remaining()),
            forall|i: int| 0 <= i < frames@.len() ==> (#[trigger] frames@[i]).wf(),
        decreases s.remaining().len(),
    {
        let ghost before = parse_frames(s.remaining());
        match next_frame(s) {
            Ok(None) => {
                assert(parse_frames(s.remaining()) == (Seq::<FrameSpec>::empty(), true));
                assert(views(frames@) =~= all.0);
                return (frames, Ok(()));
            },
            Ok(Some(f)) => {
                let ghost old_frames = frames@;
                frames.push(f);
                assert(views(frames@) =~= views(old_frames).push(f@));
                assert(before.0 =~= seq![f@] + before.0.drop_first());
                assert(views(frames@) + parse_frames(s.remaining()).0 =~= views(old_frames)
                    + before.0);
            },
            Err(e) => {
                assert(views(frames@) =~= all.0);
                return (frames, Err(e));
            },
        }
    }
}

} // verus!
