use vstd::prelude::*;

verus! {

/// Output that has been produced and waits to be pulled, in order.
pub struct OutputBuffer {
    data: Vec<u8>,
    pos: usize,
}

impl OutputBuffer {
    /// The bytes not yet pulled.
    pub closed spec fn remaining(&self) -> Seq<u8> {
        self.data@.skip(self.pos as int)
    }

    /// The buffer is consistent: its cursor lies within its data.
    pub closed spec fn wf(&self) -> bool {
        self.pos <= self.data@.len()
    }

    /// A buffer holding `data`, none of it pulled yet.
    pub fn new(data: Vec<u8>) -> (r: OutputBuffer)
        ensures
            r.wf(),
            r.remaining() == data@,
    {
        let r = OutputBuffer { data, pos: 0 };
        assert(r.data@.skip(0) =~= r.data@);
        r
    }

    /// Moves up to `max` pending bytes to the end of `buf` and returns how many.
    /// Fewer than `max` are moved only when fewer are pending; 0 means the end.
    pub fn read(&mut self, buf: &mut Vec<u8>, max: usize) -> (n: usize)
        requires
            old(self).wf(),
        ensures
            final(self).wf(),
            n == if max < old(self).remaining().len() {
                max as int
            } else {
                old(self).remaining().len() as int
            },
            final(buf)@ == old(buf)@ + old(self).remaining().take(n as int),
            final(self).remaining() == old(self).remaining().skip(n as int),
    {
        let avail = self.data.len() - self.pos;
        let n = if max < avail {
            max
        } else {
            avail
        };
        let ghost start = buf@;
        let dl = self.data.len();
        let mut i: usize = 0;
        while i < n
            invariant
                dl == self.data@.len(),
                i <= n,
                self.pos + n <= self.data@.len(),
                buf@ == start + self.data@.subrange(self.pos as int, self.pos + i),
            decreases n - i,
        {
            buf.push(self.data[self.pos + i]);
            i += 1;
            assert(buf@ =~= start + self.data@.subrange(self.pos as int, self.pos + i));
        }
        assert(old(self).remaining().take(n as int) =~= self.data@.subrange(
            self.pos as int,
            self.pos + n,
        ));
        self.pos = self.pos + n;
        assert(self.remaining() =~= old(self).remaining().skip(n as int));
        n
    }

    /// Moves every pending byte to the end of `buf` and returns how many.
    pub fn read_to_end(&mut self, buf: &mut Vec<u8>) -> (n: usize)
        requires
            old(self).wf(),
        ensures
            final(self).wf(),
            n == old(self).remaining().len(),
            final(buf)@ == old(buf)@ + old(self).remaining(),
            final(self).remaining().len() == 0,
    {
        let avail = self.data.len() - self.pos;
        let n = self.read(buf, avail);
        assert(old(self).remaining().take(n as int) =~= old(self).remaining());
        n
    }
}

} // verus!
