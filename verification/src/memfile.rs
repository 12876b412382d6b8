//! A fully verified in-memory file: the reference implementation of
//! [`FileTrait`], used by the tests and by hosts that load a store file
//! into memory, operate on it, and write it back.

use vstd::prelude::*;

use crate::error::DBError;
use crate::layout::{overlay_write, seq_resize};
use crate::traits::{read_amount, FileTrait};

verus! {

/// A file held entirely in memory. Operations never fail.
pub struct MemFile {
    data: Vec<u8>,
    pos: usize,
}

impl MemFile {
    /// An empty file with the cursor at the start.
    pub fn new() -> (r: MemFile)
        ensures
            r.contents() == Seq::<u8>::empty(),
            r.cursor() == 0,
            r.inv(),
            r.infallible(),
    {
        MemFile { data: Vec::new(), pos: 0 }
    }

    /// A file holding `data`, with the cursor at the start.
    pub fn from_bytes(data: Vec<u8>) -> (r: MemFile)
        ensures
            r.contents() == data@,
            r.cursor() == 0,
            r.inv(),
            r.infallible(),
    {
        MemFile { data, pos: 0 }
    }

    /// The bytes the file holds.
    pub fn bytes(&self) -> (r: &Vec<u8>)
        ensures
            r@ == self.contents(),
    {
        &self.data
    }

    /// Take the bytes out of the file.
    pub fn into_bytes(self) -> (r: Vec<u8>)
        ensures
            r@ == self.contents(),
    {
        self.data
    }
}

impl FileTrait for MemFile {
    closed spec fn contents(&self) -> Seq<u8> {
        self.data@
    }

    closed spec fn cursor(&self) -> int {
        self.pos as int
    }

    closed spec fn infallible(&self) -> bool {
        true
    }

    closed spec fn inv(&self) -> bool {
        true
    }

    fn read(&mut self, n: usize) -> (r: Result<Vec<u8>, DBError>) {
        assert(self.data@.len() == self.data.len());
        let mut out: Vec<u8> = Vec::new();
        if self.pos >= self.data.len() {
            return Ok(out);
        }
        let k: usize = if n <= self.data.len() - self.pos {
            n
        } else {
            self.data.len() - self.pos
        };
        let mut i: usize = 0;
        while i < k
            invariant
                i <= k,
                self.pos + k <= self.data.len(),
                out@ == self.data@.subrange(self.pos as int, self.pos + i),
            decreases k - i,
        {
            out.push(self.data[self.pos + i]);
            assert(out@ =~= self.data@.subrange(self.pos as int, self.pos + i + 1));
            i = i + 1;
        }
        self.pos = self.pos + k;
        Ok(out)
    }

    fn write(&mut self, buf: &Vec<u8>) -> (r: Result<usize, DBError>) {
        assert(self.data@.len() == self.data.len());
        if buf.len() == 0 {
            return Ok(0);
        }
        // Zero-fill any gap between the end of the file and the cursor.
        while self.data.len() < self.pos
            invariant
                self.pos <= usize::MAX,
                self.data@ == seq_resize(old(self).contents(), self.data@.len() as int),
                self.data@.len() >= old(self).contents().len(),
                self.data@.len() == old(self).contents().len() || self.data@.len() <= self.pos,
                self.pos == old(self).pos,
            decreases self.pos - self.data.len(),
        {
            self.data.push(0u8);
            assert(self.data@ =~= seq_resize(old(self).contents(), self.data@.len() as int));
        }
        let ghost padded = self.data@;
        proof {
            if padded.len() == old(self).contents().len() {
                assert(padded =~= old(self).contents());
            } else {
                assert(padded.len() == self.pos as int);
            }
        }
        let mut i: usize = 0;
        while i < buf.len()
            invariant
                i <= buf@.len(),
                self.pos + buf@.len() <= usize::MAX,
                self.pos <= padded.len(),
                self.data@.len() == if self.pos + i > padded.len() {
                    self.pos + i
                } else {
                    padded.len() as int
                },
                forall|j: int|
                    0 <= j < self.data@.len() ==> self.data@[j] == (if self.pos <= j < self.pos
                        + i {
                        buf@[j - self.pos]
                    } else if j < padded.len() {
                        padded[j]
                    } else {
                        0u8
                    }),
                self.pos == old(self).pos,
            decreases buf@.len() - i,
        {
            if self.pos + i < self.data.len() {
                let idx: usize = self.pos + i;
                self.data[idx] = buf[i];
            } else {
                self.data.push(buf[i]);
            }
            i = i + 1;
        }
        assert(self.data@ =~= overlay_write(padded, self.pos as int, buf@));
        assert(overlay_write(padded, self.pos as int, buf@) =~= overlay_write(
            old(self).contents(),
            self.pos as int,
            buf@,
        ));
        self.pos = self.pos + buf.len();
        Ok(buf.len())
    }

    fn seek(&mut self, pos: usize) -> (r: Result<usize, DBError>) {
        assert(self.data@.len() == self.data.len());
        self.pos = pos;
        Ok(pos)
    }

    fn set_len(&mut self, n: usize) -> (r: Result<(), DBError>) {
        assert(self.data@.len() == self.data.len());
        if n <= self.data.len() {
            self.data.truncate(n);
            assert(self.data@ =~= seq_resize(old(self).contents(), n as int));
        } else {
            while self.data.len() < n
                invariant
                    self.data@.len() <= n,
                    self.data@ == seq_resize(old(self).contents(), self.data@.len() as int),
                    self.data@.len() >= old(self).contents().len(),
                    self.pos == old(self).pos,
                decreases n - self.data.len(),
            {
                self.data.push(0u8);
                assert(self.data@ =~= seq_resize(old(self).contents(), self.data@.len() as int));
            }
            assert(self.data@ =~= seq_resize(old(self).contents(), n as int));
        }
        Ok(())
    }
}

} // verus!
