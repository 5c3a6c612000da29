use vstd::prelude::*;

verus! {

/// How a request for an exact number of bytes failed.
#[derive(Debug, Clone, Copy, PartialEq, Eq, Structural)]
pub enum ReadError {
    /// No byte at all was left.
    EndOfStream,
    /// Some bytes were left, but fewer than asked for.
    Truncated,
    /// The underlying transport failed.
    Io,
}

/// A sequential source of bytes that fills exactly the requested number of
/// bytes or says which way it failed.
pub trait ByteSource {
    /// The bytes that the source still has to give, in order.
    spec fn remaining(&self) -> Seq<u8>;

    /// The source never reports a transport failure.
    spec fn reliable(&self) -> bool;

    /// Fills `buf[start..start + n]` with the next `n` bytes of the source.
    fn read_exact(&mut self, buf: &mut Vec<u8>, start: usize, n: usize) -> (r: Result<(), ReadError>)
        requires
            start + n <= old(buf).len(),
        ensures
            final(buf).len() == old(buf).len(),
            final(self).reliable() == old(self).reliable(),
            old(self).reliable() ==> (r is Ok <==> n <= old(self).remaining().len()),
            match r {
                Ok(()) => {
                    &&& n <= old(self).remaining().len()
                    &&& final(buf)@ == old(buf)@.take(start as int).add(
                        old(self).remaining().take(n as int),
                    ).add(old(buf)@.skip(start + n))
                    &&& final(self).remaining() == old(self).remaining().skip(n as int)
                },
                Err(ReadError::EndOfStream) => {
                    &&& n > 0
                    &&& old(self).remaining().len() == 0
                    &&& final(self).remaining().len() == 0
                },
                Err(ReadError::Truncated) => 0 < old(self).remaining().len() < n,
                Err(ReadError::Io) => !old(self).reliable(),
            },
    ;
}

/// A byte source over bytes held in memory.
pub struct SliceSource {
    data: Vec<u8>,
    pos: usize,
}

impl SliceSource {
    /// A source that gives the bytes of `data`, in order.
    pub fn new(data: Vec<u8>) -> (r: SliceSource)
        ensures
            r.remaining() == data@,
            r.reliable(),
    {
        SliceSource { data, pos: 0 }
    }

    /// A source that gives a copy of the bytes of `data`, in order.
    pub fn from_slice(data: &[u8]) -> (r: SliceSource)
        ensures
            r.remaining() == data@,
            r.reliable(),
    {
        let mut v: Vec<u8> = Vec::new();
        let mut i: usize = 0;
        while i < data.len()
            invariant
                i <= data@.len(),
                v@ == data@.take(i as int),
            decreases data@.len() - i,
        {
            v.push(data[i]);
            i = i + 1;
            assert(v@ =~= data@.take(i as int));
        }
        assert(v@ =~= data@);
        SliceSource { data: v, pos: 0 }
    }

    /// The number of bytes still to be given.
    pub fn available(&self) -> (r: usize)
        ensures
            r == self.remaining().len(),
    {
        if self.pos <= self.data.len() {
            self.data.len() - self.pos
        } else {
            0
        }
    }
}

impl ByteSource for SliceSource {
    closed spec fn remaining(&self) -> Seq<u8> {
        if self.pos <= self.data.len() {
            self.data@.skip(self.pos as int)
        } else {
            Seq::empty()
        }
    }

    open spec fn reliable(&self) -> bool {
        true
    }

    fn read_exact(&mut self, buf: &mut Vec<u8>, start: usize, n: usize) -> (r: Result<(), ReadError>) {
        let avail = self.available();
        if n > avail {
            if avail == 0 {
                return Err(ReadError::EndOfStream);
            } else {
                return Err(ReadError::Truncated);
            }
        }
        if n == 0 {
            assert(buf@ =~= buf@.take(start as int).add(self.remaining().take(0)).add(buf@.skip(start as int)));
            assert(self.remaining() =~= self.remaining().skip(0));
            return Ok(());
        }
        assert(self.pos <= self.data@.len());
        let ghost rem = self.remaining();
        let ghost before = buf@;
        let pos = self.pos;
        let mut i: usize = 0;
        while i < n
            invariant
                self.pos == pos,
                pos <= self.data@.len(),
                n <= avail,
                avail == self.data@.len() - pos,
                rem == self.data@.skip(pos as int),
                i <= n,
                start + n <= before.len(),
                buf@.len() == before.len(),
                forall|j: int| 0 <= j < start ==> buf@[j] == before[j],
                forall|j: int| start + n <= j < before.len() ==> buf@[j] == before[j],
                forall|j: int| 0 <= j < i ==> buf@[start + j] == rem[j],
            decreases n - i,
        {
            assert(pos + i < self.data.len());
            assert(start + i < buf.len());
            let b = self.data[pos + i];
            buf.set(start + i, b);
            i = i + 1;
        }
        self.pos = pos + n;
        assert(buf@ =~= before.take(start as int).add(rem.take(n as int)).add(before.skip(start + n)));
        assert(self.remaining() =~= rem.skip(n as int));
        Ok(())
    }
}

} // verus!
