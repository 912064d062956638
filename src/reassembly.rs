use vstd::prelude::*;

verus! {

/// Returned by `TcpStream::read` when fewer bytes remain after the cursor
/// than were asked for.
#[derive(Debug, Clone, Copy, PartialEq, Eq, Structural)]
pub struct Underrun;

/// One direction of a captured connection: an append-only byte buffer with a
/// read cursor that only moves forward.
#[derive(Debug)]
pub struct TcpStream {
    data: Vec<u8>,
    pos: usize,
}

impl TcpStream {
    /// Every byte pushed so far, in push order.
    pub closed spec fn content(&self) -> Seq<u8> {
        self.data@
    }

    /// How many bytes have been read so far.
    pub closed spec fn cursor(&self) -> nat {
        self.pos as nat
    }

    pub open spec fn wf(&self) -> bool {
        self.cursor() <= self.content().len()
    }

    /// The bytes after the cursor: what the next reads return.
    pub open spec fn remaining(&self) -> Seq<u8> {
        self.content().subrange(self.cursor() as int, self.content().len() as int)
    }


    pub fn new() -> (r: TcpStream)
        ensures
            r.wf(),
            r.content() == Seq::<u8>::empty(),
            r.cursor() == 0,
    {
        TcpStream { data: Vec::new(), pos: 0 }
    }

    /// Appends `bytes` after everything pushed before.
    pub fn push(&mut self, bytes: &[u8])
        requires
            old(self).wf(),
        ensures
            final(self).wf(),
            final(self).content() == old(self).content() + bytes@,
            final(self).cursor() == old(self).cursor(),
    {
        let ghost start = self.data@;
        let ghost start_pos = self.pos;
        let mut i: usize = 0;
        while i < bytes.len()
            invariant
                i <= bytes@.len(),
                self.data@ == start + bytes@.subrange(0, i as int),
                self.pos == start_pos,
                start_pos <= start.len(),
            decreases bytes@.len() - i,
        {
            self.data.push(bytes[i]);
            i = i + 1;
            assert(self.data@ =~= start + bytes@.subrange(0, i as int));
        }
        assert(bytes@.subrange(0, i as int) =~= bytes@);
    }

    /// Number of bytes that remain after the cursor.
    pub fn available(&self) -> (r: usize)
        requires
            self.wf(),
        ensures
            r == self.remaining().len(),
    {
        self.data.len() - self.pos
    }

    /// Returns the next `n` bytes and moves the cursor past them; fails with
    /// `Underrun`, and leaves the stream as it was, when fewer than `n` remain.
    pub fn read(&mut self, n: usize) -> (r: Result<Vec<u8>, Underrun>)
        requires
            old(self).wf(),
        ensures
            final(self).wf(),
            final(self).content() == old(self).content(),
            match r {
                Ok(v) => n <= old(self).remaining().len()
                    && v@ == old(self).remaining().subrange(0, n as int)
                    && final(self).cursor() == old(self).cursor() + n,
                Err(_) => n > old(self).remaining().len()
                    && final(self).cursor() == old(self).cursor(),
            },
    {
        if n > self.data.len() - self.pos {
            return Err(Underrun);
        }
        let len = self.data.len();
        let mut out: Vec<u8> = Vec::with_capacity(n);
        let mut i: usize = 0;
        while i < n
            invariant
                self.wf(),
                len == self.data@.len(),
                n <= self.data@.len() - self.pos,
                i <= n,
                out@ == self.data@.subrange(self.pos as int, self.pos + i),
            decreases n - i,
        {
            out.push(self.data[self.pos + i]);
            i = i + 1;
            assert(out@ =~= self.data@.subrange(self.pos as int, self.pos + i));
        }
        let ghost before = *self;
        self.pos = self.pos + n;
        assert(out@ =~= before.remaining().subrange(0, n as int));
        Ok(out)
    }
}

/// Pushing `a` and then `b` leaves the same readable bytes as pushing `a + b`
/// once: nothing is reordered, duplicated or lost.
pub proof fn lemma_push_twice(
    s: TcpStream,
    after_a: TcpStream,
    after_ab: TcpStream,
    joined: TcpStream,
    a: Seq<u8>,
    b: Seq<u8>,
)
    requires
        s.wf(),
        after_a.content() == s.content() + a,
        after_a.cursor() == s.cursor(),
        after_ab.content() == after_a.content() + b,
        after_ab.cursor() == after_a.cursor(),
        joined.content() == s.content() + (a + b),
        joined.cursor() == s.cursor(),
    ensures
        after_ab.content() == joined.content(),
        after_ab.remaining() == joined.remaining(),
        after_ab.remaining() == s.remaining() + a + b,
{
    assert(after_ab.content() =~= joined.content());
    assert(after_ab.remaining() =~= s.remaining() + a + b);
}

/// On a stream holding exactly `x` with the cursor at its start, where
/// `x.len() == n + m`: a read of `n` returns the first `n` bytes, a read of `m`
/// after it returns the next `m`, the two together are `x`, and a read of one
/// more byte underruns.
pub proof fn lemma_read_split(
    s0: TcpStream,
    s1: TcpStream,
    s2: TcpStream,
    x: Seq<u8>,
    n: nat,
    m: nat,
)
    requires
        x.len() == n + m,
        s0.content() == x,
        s0.cursor() == 0,
        s1.content() == x,
        s1.cursor() == s0.cursor() + n,
        s2.content() == x,
        s2.cursor() == s1.cursor() + m,
    ensures
        s0.remaining().subrange(0, n as int) == x.subrange(0, n as int),
        s1.remaining().subrange(0, m as int) == x.subrange(n as int, (n + m) as int),
        x.subrange(0, n as int) + x.subrange(n as int, (n + m) as int) == x,
        s2.remaining().len() < 1,
{
    assert(s0.remaining().subrange(0, n as int) =~= x.subrange(0, n as int));
    assert(s1.remaining().subrange(0, m as int) =~= x.subrange(n as int, (n + m) as int));
    assert(x.subrange(0, n as int) + x.subrange(n as int, (n + m) as int) =~= x);
}

} // verus!
