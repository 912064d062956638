use vstd::prelude::*;

use crate::reassembly::TcpStream;

verus! {

/// Length of the connection prologue.
pub const PROLOGUE_LEN: usize = 24;

/// The bytes every connection starts with: `PRI * HTTP/2.0\r\n\r\nSM\r\n\r\n`.
pub open spec fn prologue() -> Seq<u8> {
    seq![0x50u8, 0x52u8, 0x49u8, 0x20u8, 0x2au8, 0x20u8, 0x48u8, 0x54u8, 0x54u8, 0x50u8, 0x2fu8, 0x32u8, 0x2eu8, 0x30u8, 0x0du8, 0x0au8, 0x0du8, 0x0au8, 0x53u8, 0x4du8, 0x0du8, 0x0au8, 0x0du8, 0x0au8]
}

/// The prologue bytes, as a vector.
pub fn prologue_bytes() -> (r: Vec<u8>)
    ensures
        r@ == prologue(),
{
    let r: Vec<u8> = vec![0x50, 0x52, 0x49, 0x20, 0x2a, 0x20, 0x48, 0x54, 0x54, 0x50, 0x2f, 0x32, 0x2e, 0x30, 0x0d, 0x0a, 0x0d, 0x0a, 0x53, 0x4d, 0x0d, 0x0a, 0x0d, 0x0a];
    assert(r@ =~= prologue());
    r
}

/// Returned when a stream does not start with the prologue, or is shorter
/// than it.
#[derive(Debug, Clone, Copy, PartialEq, Eq, Structural)]
pub struct PrologueMismatch;

/// Reads the 24-byte prologue at the cursor and checks it byte for byte.
///
/// On success the cursor stands just after the prologue. A stream with fewer
/// than 24 bytes left fails and keeps its cursor; one whose next 24 bytes
/// differ fails after they were read.
pub fn validate_prologue(s: &mut TcpStream) -> (r: Result<(), PrologueMismatch>)
    requires
        old(s).wf(),
    ensures
        final(s).wf(),
        final(s).content() == old(s).content(),
        r.is_ok() <==> (old(s).remaining().len() >= 24 && old(s).remaining().subrange(0, 24)
            == prologue()),
        r.is_ok() ==> final(s).cursor() == old(s).cursor() + 24,
        old(s).remaining().len() < 24 ==> final(s).cursor() == old(s).cursor(),
        old(s).remaining().len() >= 24 ==> final(s).cursor() == old(s).cursor() + 24,
{
    let got = match s.read(PROLOGUE_LEN) {
        Ok(b) => b,
        Err(_) => return Err(PrologueMismatch),
    };
    let want = prologue_bytes();
    let mut i: usize = 0;
    while i < PROLOGUE_LEN
        invariant
            s.wf(),
            s.content() == old(s).content(),
            s.cursor() == old(s).cursor() + 24,
            got@ == old(s).remaining().subrange(0, 24),
            want@ == prologue(),
            i <= 24,
            forall|j: int| 0 <= j < i ==> got@[j] == want@[j],
        decreases 24 - i,
    {
        if got[i] != want[i] {
            return Err(PrologueMismatch);
        }
        i = i + 1;
    }
    assert(got@ =~= prologue());
    Ok(())
}

} // verus!
