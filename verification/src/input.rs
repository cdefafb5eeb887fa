//! The buffer that terminal input is read into and taken from byte by byte.

use vstd::prelude::*;

verus! {

/// The size of the buffer that terminal input is read into.
pub const BUFFER_SIZE: usize = 1024;

/// The escape byte.
pub const ESCAPE: u8 = 0o33;

/// A buffer of `N` bytes of input: the first `buffer_size` hold what was
/// read last, and those before `buffer_index` were taken.
pub struct BufferedInput<const N: usize> {
    buffer: Vec<u8>,
    buffer_size: usize,
    buffer_index: usize,
}

impl<const N: usize> BufferedInput<N> {
    /// The bytes of the buffer.
    pub closed spec fn bytes(&self) -> Seq<u8> {
        self.buffer@
    }

    /// How many bytes the last read put in the buffer.
    pub closed spec fn size(&self) -> nat {
        self.buffer_size as nat
    }

    /// How many of them were taken.
    pub closed spec fn index(&self) -> nat {
        self.buffer_index as nat
    }

    /// The buffer holds `N` bytes, of which the read ones come first and the
    /// taken ones before them.
    pub closed spec fn wf(&self) -> bool {
        &&& self.buffer@.len() == N
        &&& self.buffer_index <= self.buffer_size <= N
    }

    /// An empty buffer, all zeros.
    pub fn new() -> (b: Self)
        ensures
            b.wf(),
            b.bytes() == Seq::new(N as nat, |i: int| 0u8),
            b.size() == 0,
            b.index() == 0,
    {
        let mut buffer: Vec<u8> = Vec::new();
        let mut i: usize = 0;
        while i < N
            invariant
                i <= N,
                buffer@ == Seq::new(i as nat, |k: int| 0u8),
            decreases N - i,
        {
            buffer.push(0);
            i = i + 1;
            assert(buffer@ =~= Seq::new(i as nat, |k: int| 0u8));
        }
        BufferedInput { buffer, buffer_size: 0, buffer_index: 0 }
    }

    /// Whether some of the bytes read were not taken yet.
    pub fn has_buffered_data(&self) -> (b: bool)
        ensures
            b == (self.index() < self.size()),
    {
        self.buffer_index < self.buffer_size
    }

    /// Takes the next byte read.
    pub fn next_u8(&mut self) -> (b: u8)
        requires
            old(self).wf(),
            old(self).index() < old(self).size(),
        ensures
            final(self).wf(),
            b == old(self).bytes()[old(self).index() as int],
            final(self).bytes() == old(self).bytes(),
            final(self).size() == old(self).size(),
            final(self).index() == old(self).index() + 1,
    {
        let val = self.buffer[self.buffer_index];
        self.buffer_index = self.buffer_index + 1;
        val
    }

    /// Takes the next byte read, if one is left.
    pub fn next(&mut self) -> (b: Option<u8>)
        requires
            old(self).wf(),
        ensures
            final(self).wf(),
            final(self).bytes() == old(self).bytes(),
            final(self).size() == old(self).size(),
            old(self).index() < old(self).size() ==> b == Some(old(self).bytes()[old(self).index() as int])
                && final(self).index() == old(self).index() + 1,
            old(self).index() >= old(self).size() ==> b is None && final(self).index() == old(self).index(),
    {
        if !self.has_buffered_data() {
            return None;
        }
        Some(self.next_u8())
    }

    /// Empties the buffer, zeroing its bytes.
    pub fn clear(&mut self)
        requires
            old(self).wf(),
        ensures
            final(self).wf(),
            final(self).bytes() == Seq::new(N as nat, |i: int| 0u8),
            final(self).size() == 0,
            final(self).index() == 0,
    {
        let mut i: usize = 0;
        while i < self.buffer.len()
            invariant
                self.buffer@.len() == N,
                i <= N,
                forall|k: int| 0 <= k < i ==> self.buffer@[k] == 0u8,
            decreases N - i,
        {
            self.buffer.set(i, 0);
            i = i + 1;
        }
        self.buffer_size = 0;
        self.buffer_index = 0;
        assert(self.buffer@ =~= Seq::new(N as nat, |i: int| 0u8));
    }

    /// If the buffer holds nothing but one escape byte, just read, empties
    /// it and returns `true`: a lone escape is the escape key, not the start
    /// of a sequence.
    pub fn take_pure_escape(&mut self) -> (taken: bool)
        requires
            old(self).wf(),
        ensures
            final(self).wf(),
            taken == (old(self).index() == 0 && old(self).size() == 1 && old(self).bytes()[0] == ESCAPE),
            taken ==> final(self).size() == 0 && final(self).index() == 0,
            !taken ==> final(self).bytes() == old(self).bytes() && final(self).size() == old(self).size()
                && final(self).index() == old(self).index(),
    {
        if self.buffer_index == 0 && self.buffer_size == 1 && self.buffer[0] == ESCAPE {
            self.clear();
            return true;
        }
        false
    }

    /// Whether a read is due: every byte read was taken.
    pub fn needs_more_input(&self) -> (b: bool)
        ensures
            b == !(self.index() < self.size()),
    {
        !self.has_buffered_data()
    }

    /// Puts the bytes just read in the buffer, in place of what it held.
    pub fn fill(&mut self, data: &[u8])
        requires
            old(self).wf(),
            data@.len() <= N,
        ensures
            final(self).wf(),
            final(self).bytes().take(data@.len() as int) == data@,
            forall|k: int| data@.len() <= k < N ==> final(self).bytes()[k] == 0u8,
            final(self).size() == data@.len(),
            final(self).index() == 0,
    {
        self.clear();
        let mut i: usize = 0;
        while i < data.len()
            invariant
                self.buffer@.len() == N,
                data@.len() <= N,
                i <= data@.len(),
                self.buffer@.take(i as int) == data@.take(i as int),
                forall|k: int| i <= k < N ==> self.buffer@[k] == 0u8,
            decreases data@.len() - i,
        {
            self.buffer.set(i, data[i]);
            i = i + 1;
            assert(self.buffer@.take(i as int) =~= data@.take(i as int));
        }
        self.buffer_size = data.len();
        self.buffer_index = 0;
        assert(data@.take(i as int) =~= data@);
    }
}

} // verus!
