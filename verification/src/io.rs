use vstd::prelude::*;

verus! {

/// The byte streams of a run: the input still to be read, and the output
/// written so far. The interpreter reads and writes through this buffer;
/// the surrounding program fills it from its real input and drains it to
/// its real output.
pub struct IoBuffer {
    input: Vec<u8>,
    pos: usize,
    output: Vec<u8>,
}

impl IoBuffer {
    /// The read position lies inside the input.
    pub closed spec fn wf(&self) -> bool {
        self.pos <= self.input@.len()
    }

    /// The bytes still to be read.
    pub closed spec fn in_rest(&self) -> Seq<u8> {
        self.input@.skip(self.pos as int)
    }

    /// The bytes written so far.
    pub closed spec fn out_seq(&self) -> Seq<u8> {
        self.output@
    }

    /// A buffer that will read the given bytes and has written nothing.
    pub fn new(input: Vec<u8>) -> (r: IoBuffer)
        ensures
            r.wf(),
            r.in_rest() == input@,
            r.out_seq() == Seq::<u8>::empty(),
    {
        let r = IoBuffer { input, pos: 0, output: Vec::new() };
        proof {
            assert(r.in_rest() =~= r.input@);
        }
        r
    }

    /// The next input byte, or `None` when the input is exhausted.
    pub fn read_byte(&mut self) -> (r: Option<u8>)
        requires
            old(self).wf(),
        ensures
            final(self).wf(),
            final(self).out_seq() == old(self).out_seq(),
            old(self).in_rest().len() == 0 ==> r is None && *final(self) == *old(self),
            old(self).in_rest().len() > 0 ==> r == Some(old(self).in_rest()[0])
                && final(self).in_rest() == old(self).in_rest().drop_first(),
    {
        if self.pos < self.input.len() {
            let b = self.input[self.pos];
            self.pos = self.pos + 1;
            proof {
                assert(self.in_rest() =~= old(self).in_rest().drop_first());
            }
            Some(b)
        } else {
            None
        }
    }

    /// Append one byte to the output.
    pub fn write_byte(&mut self, b: u8)
        requires
            old(self).wf(),
        ensures
            final(self).wf(),
            final(self).in_rest() == old(self).in_rest(),
            final(self).out_seq() == old(self).out_seq().push(b),
    {
        self.output.push(b);
    }

    /// The output written so far.
    pub fn output(&self) -> (r: &Vec<u8>)
        ensures
            r@ == self.out_seq(),
    {
        &self.output
    }

    /// The output written so far, taking the buffer apart.
    pub fn into_output(self) -> (r: Vec<u8>)
        ensures
            r@ == self.out_seq(),
    {
        self.output
    }
}

} // verus!
