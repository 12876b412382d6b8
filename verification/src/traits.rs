//! Capability traits: the random-access file the store runs over, and the
//! path it is opened from.
//!
//! The stream cache is generic over [`FileTrait`], so the verified layers
//! work over any file whose operations honour these contracts. The crate
//! ships a fully verified in-memory implementation
//! ([`crate::memfile::MemFile`]); a host binary may implement the trait over
//! a regular file, whose operations may fail with `IOError`.

use vstd::prelude::*;

use crate::error::DBError;
use crate::layout::{overlay_write, seq_resize};

verus! {

/// How many bytes a read of `n` at `cursor` yields from a file of `len`
/// bytes: up to `n`, never past the end, none at or past the end.
pub open spec fn read_amount(len: int, cursor: int, n: int) -> int {
    if cursor >= len {
        0
    } else if cursor + n <= len {
        n
    } else {
        len - cursor
    }
}

/// A random-access file: a byte sequence, a cursor, and read / write /
/// seek / truncate. An implementation whose `infallible()` holds never
/// returns an error; a host-backed file may fail any operation with
/// `IOError`, after which its contents and cursor are unspecified.
pub trait FileTrait: Sized {
    /// The bytes the file holds.
    spec fn contents(&self) -> Seq<u8>;

    /// The position of the read/write cursor; may point past the end.
    spec fn cursor(&self) -> int;

    /// True of implementations whose operations never fail.
    spec fn infallible(&self) -> bool;

    /// Implementation-specific well-formedness, preserved by every
    /// operation.
    spec fn inv(&self) -> bool;

    /// Read up to `n` bytes at the cursor, advancing it by the number of
    /// bytes read. A zero-length result means the cursor was at or past the
    /// end of the file.
    fn read(&mut self, n: usize) -> (r: Result<Vec<u8>, DBError>)
        requires
            old(self).inv(),
            0 <= old(self).cursor(),
        ensures
            final(self).inv(),
            final(self).contents().len() <= usize::MAX,
            final(self).infallible() == old(self).infallible(),
            old(self).infallible() ==> r is Ok,
            match r {
                Ok(v) => {
                    &&& final(self).contents() == old(self).contents()
                    &&& v@.len() == read_amount(
                        old(self).contents().len() as int,
                        old(self).cursor(),
                        n as int,
                    )
                    &&& v@.len() > 0 ==> v@ == old(self).contents().subrange(
                        old(self).cursor(),
                        old(self).cursor() + v@.len(),
                    )
                    &&& final(self).cursor() == old(self).cursor() + v@.len()
                },
                Err(e) => e is IOError,
            },
    ;

    /// Write all of `buf` at the cursor, advancing it past the written
    /// bytes. Writing past the end extends the file, reading the gap (if
    /// any) as zeros.
    fn write(&mut self, buf: &Vec<u8>) -> (r: Result<usize, DBError>)
        requires
            old(self).inv(),
            0 <= old(self).cursor(),
            old(self).cursor() + buf@.len() <= usize::MAX,
        ensures
            final(self).inv(),
            final(self).contents().len() <= usize::MAX,
            final(self).infallible() == old(self).infallible(),
            old(self).infallible() ==> r is Ok,
            match r {
                Ok(k) => {
                    &&& k == buf@.len()
                    &&& final(self).contents() == overlay_write(
                        old(self).contents(),
                        old(self).cursor(),
                        buf@,
                    )
                    &&& final(self).cursor() == old(self).cursor() + buf@.len()
                },
                Err(e) => e is IOError,
            },
    ;

    /// Move the cursor to an absolute position; the contents are untouched.
    fn seek(&mut self, pos: usize) -> (r: Result<usize, DBError>)
        requires
            old(self).inv(),
        ensures
            final(self).inv(),
            final(self).contents().len() <= usize::MAX,
            final(self).infallible() == old(self).infallible(),
            old(self).infallible() ==> r is Ok,
            match r {
                Ok(q) => {
                    &&& q == pos
                    &&& final(self).contents() == old(self).contents()
                    &&& final(self).cursor() == pos
                },
                Err(e) => e is IOError,
            },
    ;

    /// Truncate the file to `n` bytes, or extend it with zeros; the cursor
    /// is untouched.
    fn set_len(&mut self, n: usize) -> (r: Result<(), DBError>)
        requires
            old(self).inv(),
        ensures
            final(self).inv(),
            final(self).contents().len() <= usize::MAX,
            final(self).infallible() == old(self).infallible(),
            old(self).infallible() ==> r is Ok,
            match r {
                Ok(u) => {
                    &&& final(self).contents() == seq_resize(old(self).contents(), n as int)
                    &&& final(self).cursor() == old(self).cursor()
                },
                Err(e) => e is IOError,
            },
    ;
}

/// A path to a store file, as the host file system names it.
pub trait CPathTrait: Sized {
    /// The characters of the path.
    spec fn path_spec(&self) -> Seq<char>;

    /// The path as a string slice.
    fn as_str(&self) -> (r: &str)
        ensures
            r@ == self.path_spec(),
    ;
}

} // verus!
