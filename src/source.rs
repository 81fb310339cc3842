//! Byte sources that can be read up to a delimiter.

use vstd::prelude::*;

use crate::lines::{lemma_seg_len_bounds, seg_len};

verus! {

/// The I/O error of the standard library, carried through unchanged.
#[verifier::external_type_specification]
#[verifier::external_body]
pub struct ExIoError(std::io::Error);

/// A sequential source of bytes that can be read up to a delimiter.
pub trait ByteSource: Sized {
    /// The bytes that the source has not handed out yet.
    spec fn remaining(&self) -> Seq<u8>;

    /// Whether reads of this source always succeed.
    spec fn infallible(&self) -> bool;

    /// Appends to `buf` the bytes up to and including the next `delim`, or up
    /// to the end when there is none, and returns how many were read. After
    /// an error nothing is said of the source or of `buf`.
    fn read_until(&mut self, delim: u8, buf: &mut Vec<u8>) -> (r: Result<usize, std::io::Error>)
        ensures
            old(self).infallible() ==> r is Ok && final(self).infallible(),
            r matches Ok(n) ==> {
                &&& n == seg_len(old(self).remaining(), delim)
                &&& final(buf)@ == old(buf)@ + old(self).remaining().take(n as int)
                &&& final(self).remaining() == old(self).remaining().skip(n as int)
            },
    ;
}

/// A byte source over bytes held in memory.
pub struct ByteCursor {
    data: Vec<u8>,
    pos: usize,
}

impl ByteCursor {
    /// A cursor at the start of `data`.
    pub fn new(data: Vec<u8>) -> (r: ByteCursor)
        ensures
            r.remaining() == data@,
            r.infallible(),
    {
        ByteCursor { data, pos: 0 }
    }
}

impl ByteSource for ByteCursor {
    closed spec fn remaining(&self) -> Seq<u8> {
        if self.pos <= self.data.len() {
            self.data@.skip(self.pos as int)
        } else {
            seq![]
        }
    }

    open spec fn infallible(&self) -> bool {
        true
    }

    fn read_until(&mut self, delim: u8, buf: &mut Vec<u8>) -> (r: Result<usize, std::io::Error>)
    {
        let ghost rem = old(self).remaining();
        let start: usize = self.pos;
        let len: usize = self.data.len();
        if start >= len {
            assert(rem.take(0) =~= seq![]);
            assert(old(buf)@ + seq![] =~= old(buf)@);
            assert(rem.skip(0) =~= rem);
            return Ok(0);
        }
        let mut i: usize = start;
        let mut done = false;
        while i < len && !done
            invariant
                start <= i <= len,
                len == self.data.len(),
                self.data == old(self).data,
                self.pos == start,
                rem == self.data@.skip(start as int),
                buf@ == old(buf)@ + self.data@.subrange(start as int, i as int),
                !done ==> seg_len(rem, delim) == (i - start) + seg_len(self.data@.skip(i as int), delim),
                done ==> seg_len(rem, delim) == i - start,
            decreases len - i,
        {
            let b = self.data[i];
            buf.push(b);
            proof {
                let t = self.data@.skip(i as int);
                assert(t[0] == b);
                assert(t.drop_first() =~= self.data@.skip(i + 1));
                assert(self.data@.subrange(start as int, i + 1) =~= self.data@.subrange(
                    start as int,
                    i as int,
                ).push(b));
            }
            i = i + 1;
            if b == delim {
                done = true;
            }
        }
        proof {
            if !done {
                assert(self.data@.skip(i as int).len() == 0);
            }
            assert(rem.take(i - start) =~= self.data@.subrange(start as int, i as int));
            assert(rem.skip(i - start) =~= self.data@.skip(i as int));
        }
        self.pos = i;
        Ok(i - start)
    }
}

} // verus!
