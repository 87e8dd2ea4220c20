//! The batch buffer: a fixed-capacity accumulator of whole lines.
use vstd::prelude::*;
use vstd::slice::slice_subrange;
use crate::BUFFER_SIZE;

verus! {

/// A byte buffer of `BUFFER_SIZE` bytes with a write cursor. Its view is
/// what has been written since it was last cleared.
pub struct StackBuf {
    buf: Vec<u8>,
    pos: usize,
}

impl View for StackBuf {
    type V = Seq<u8>;

    closed spec fn view(&self) -> Seq<u8> {
        self.buf@.take(self.pos as int)
    }
}

impl StackBuf {
    /// The storage has its full size and the cursor lies within it.
    pub closed spec fn wf(&self) -> bool {
        &&& self.buf.len() == BUFFER_SIZE
        &&& self.pos <= BUFFER_SIZE
    }

    /// An empty buffer.
    pub fn new() -> (sb: StackBuf)
        ensures
            sb.wf(),
            sb@ == Seq::<u8>::empty(),
    {
        let sb = StackBuf { buf: vec![0u8; BUFFER_SIZE], pos: 0 };
        assert(sb@ =~= Seq::<u8>::empty());
        sb
    }

    /// The capacity in bytes.
    pub fn len(&self) -> (n: usize)
        ensures
            n == BUFFER_SIZE,
    {
        BUFFER_SIZE
    }

    /// The number of bytes held.
    pub fn pos(&self) -> (n: usize)
        requires
            self.wf(),
        ensures
            n == self@.len(),
    {
        self.pos
    }

    /// Whether `next_len` more bytes would not fit.
    pub fn is_full(&self, next_len: usize) -> (full: bool)
        requires
            self.wf(),
        ensures
            full == (self@.len() + next_len > BUFFER_SIZE),
    {
        next_len > BUFFER_SIZE - self.pos
    }

    /// Appends `bytes`, which must fit.
    pub fn write(&mut self, bytes: &[u8])
        requires
            old(self).wf(),
            old(self)@.len() + bytes@.len() <= BUFFER_SIZE,
        ensures
            final(self).wf(),
            final(self)@ == old(self)@ + bytes@,
    {
        let n = bytes.len();
        let start = self.pos;
        let mut i: usize = 0;
        while i < n
            invariant
                i <= n,
                n == bytes@.len(),
                start + n <= BUFFER_SIZE,
                self.pos == start,
                self.buf.len() == BUFFER_SIZE,
                self.buf@.take(start as int) == old(self)@,
                forall|k: int| 0 <= k < i ==> self.buf@[start + k] == bytes@[k],
            decreases n - i,
        {
            let ghost before = self.buf@;
            self.buf[start + i] = bytes[i];
            assert(self.buf@.take(start as int) =~= before.take(start as int));
            i += 1;
        }
        self.pos = start + n;
        assert(self@ =~= old(self)@ + bytes@);
    }

    /// The bytes held.
    pub fn getdata(&self) -> (data: &[u8])
        requires
            self.wf(),
        ensures
            data@ == self@,
    {
        let data = slice_subrange(self.buf.as_slice(), 0, self.pos);
        assert(data@ =~= self@);
        data
    }

    /// Appends the bytes held to `out` and forgets them.
    pub fn flush_to(&mut self, out: &mut Vec<u8>)
        requires
            old(self).wf(),
        ensures
            final(self).wf(),
            final(self)@ == Seq::<u8>::empty(),
            final(out)@ == old(out)@ + old(self)@,
    {
        let n = self.pos;
        let mut i: usize = 0;
        while i < n
            invariant
                i <= n,
                n == self.pos,
                self.wf(),
                *self == *old(self),
                out@ == old(out)@ + self@.take(i as int),
            decreases n - i,
        {
            out.push(self.buf[i]);
            assert(self@.take(i + 1) =~= self@.take(i as int).push(self.buf@[i as int]));
            i += 1;
        }
        assert(self@.take(n as int) =~= self@);
        self.clear();
    }

    /// Forgets the bytes held.
    pub fn clear(&mut self)
        requires
            old(self).wf(),
        ensures
            final(self).wf(),
            final(self)@ == Seq::<u8>::empty(),
    {
        self.pos = 0;
        assert(self@ =~= Seq::<u8>::empty());
    }
}

} // verus!
