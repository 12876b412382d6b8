//! The entry record and the iterators the store hands out.
//!
//! The iterators own a chunk stream and yield one result per call of
//! `next`: the entry iterator decodes each chunk, the chunk iterator hands
//! the raw bytes out. Both stop cleanly at the first position where no
//! terminated chunk parses — a corrupted tail ends the scan, it does not
//! fail it.

use vstd::prelude::*;

use crate::error::DBError;
use crate::layout::{chunk_scan, le_val};
use crate::serializer::DBSerializer;
use crate::stream::DBFileStream;
use crate::traits::FileTrait;
use crate::BLOCK_SIZE;

verus! {

/// One stored record: its dense UID and its value.
#[derive(Debug)]
pub struct DBEntry<T> {
    pub uid: u32,
    pub item: T,
}

impl<T> DBEntry<T> {
    pub fn new(uid: u32, item: T) -> (r: Self)
        ensures
            r.uid == uid,
            r.item == item,
    {
        DBEntry { uid, item }
    }
}

/// Yields `(uid, value)` entries, one per chunk, skipping nothing: a chunk
/// too short to decode yields its error.
pub struct DBIterator<F: FileTrait, const N: usize> {
    stream: DBFileStream<F, N>,
    serializer: DBSerializer,
}

impl<F: FileTrait, const N: usize> DBIterator<F, N> {
    /// The bytes the iterator walks.
    pub closed spec fn view(&self) -> Seq<u8> {
        self.stream.view()
    }

    /// The scan position.
    pub closed spec fn pos(&self) -> int {
        self.stream.pos()
    }

    pub closed spec fn wf(&self) -> bool {
        self.stream.wf()
    }

    pub closed spec fn file_infallible(&self) -> bool {
        self.stream.file_infallible()
    }

    /// An iterator over an already-open chunk stream.
    pub fn new(stream: DBFileStream<F, N>, serializer: DBSerializer) -> (r: Self)
        requires
            stream.wf(),
        ensures
            r.wf(),
            r.view() == stream.view(),
            r.pos() == stream.pos(),
            r.file_infallible() == stream.file_infallible(),
    {
        DBIterator { stream, serializer }
    }

    /// An iterator over `file`, from the start.
    pub fn from_file(file: F) -> (r: Self)
        requires
            N >= BLOCK_SIZE,
            N % BLOCK_SIZE == 0,
            file.inv(),
            file.contents().len() <= usize::MAX,
        ensures
            r.wf(),
            r.view() == file.contents(),
            r.pos() == 0,
            r.file_infallible() == file.infallible(),
    {
        let stream: DBFileStream<F, N> = DBFileStream::new(file);
        let serializer: DBSerializer = DBSerializer::new();
        DBIterator { stream, serializer }
    }

    /// The next entry: decodes the chunk at the position. `None` once no
    /// terminated chunk parses there — a corrupted tail ends the scan — and
    /// a host failure is yielded as its own error.
    pub fn next(&mut self) -> (r: Option<Result<DBEntry<u32>, DBError>>)
        requires
            old(self).wf(),
        ensures
            final(self).wf(),
            final(self).file_infallible() == old(self).file_infallible(),
            match r {
                Some(item) => {
                    let e = chunk_scan(old(self).view(), old(self).pos()).0;
                    let c = old(self).view().subrange(old(self).pos(), e);
                    match item {
                        Ok(en) => {
                            &&& chunk_scan(old(self).view(), old(self).pos()).1
                            &&& final(self).view() == old(self).view()
                            &&& final(self).pos() == e
                            &&& c.len() >= 12
                            &&& en.uid as int == le_val(c.subrange(0, 4))
                            &&& en.item as int == le_val(c.subrange(4, 8))
                        },
                        Err(er) => (er is IOError && !old(self).file_infallible()) || (
                        chunk_scan(old(self).view(), old(self).pos()).1 && final(self).view()
                            == old(self).view() && final(self).pos() == e && c.len() < 12),
                    }
                },
                None => !chunk_scan(old(self).view(), old(self).pos()).1 && final(self).view()
                    == old(self).view() && final(self).pos() == chunk_scan(
                    old(self).view(),
                    old(self).pos(),
                ).0,
            },
    {
        let chunk: Vec<u8> = match self.stream.iter_chunk() {
            Ok(c) => c,
            Err(DBError::InvalidData) => {
                return None;
            },
            Err(e) => {
                return Some(Err(e));
            },
        };
        let entry: Result<DBEntry<u32>, DBError> = self.serializer.deserialize(&chunk);
        proof {
            let e = chunk_scan(old(self).view(), old(self).pos()).0;
            let c = old(self).view().subrange(old(self).pos(), e);
            assert(chunk@.subrange(0, 4) =~= c.subrange(0, 4));
            if chunk@.len() >= 12 {
                assert(chunk@.subrange(4, 8) =~= c.subrange(4, 8));
            }
        }
        Some(entry)
    }

    /// Flush and hand the file back.
    pub fn into_file(self) -> (r: Result<F, DBError>)
        requires
            self.wf(),
        ensures
            self.file_infallible() ==> r is Ok,
            match r {
                Ok(f) => f.contents() == self.view() && f.contents().len() <= usize::MAX
                    && f.inv() && f.infallible() == self.file_infallible(),
                Err(e) => e is IOError,
            },
    {
        let mut stream = self.stream;
        match stream.flush() {
            Ok(_) => Ok(stream.into_file()),
            Err(e) => Err(e),
        }
    }
}

/// Yields raw chunks, sentinel block included.
pub struct DBChunkIterator<F: FileTrait, const N: usize> {
    stream: DBFileStream<F, N>,
}

impl<F: FileTrait, const N: usize> DBChunkIterator<F, N> {
    pub closed spec fn view(&self) -> Seq<u8> {
        self.stream.view()
    }

    pub closed spec fn pos(&self) -> int {
        self.stream.pos()
    }

    pub closed spec fn wf(&self) -> bool {
        self.stream.wf()
    }

    pub closed spec fn file_infallible(&self) -> bool {
        self.stream.file_infallible()
    }

    /// An iterator over `file`, from the start.
    pub fn from_file(file: F) -> (r: Self)
        requires
            N >= BLOCK_SIZE,
            N % BLOCK_SIZE == 0,
            file.inv(),
            file.contents().len() <= usize::MAX,
        ensures
            r.wf(),
            r.view() == file.contents(),
            r.pos() == 0,
            r.file_infallible() == file.infallible(),
    {
        let stream: DBFileStream<F, N> = DBFileStream::new(file);
        DBChunkIterator { stream }
    }

    /// The raw bytes of the chunk at the position. `None` once no
    /// terminated chunk parses there; a host failure is yielded as its own
    /// error.
    pub fn next(&mut self) -> (r: Option<Result<Vec<u8>, DBError>>)
        requires
            old(self).wf(),
        ensures
            final(self).wf(),
            final(self).file_infallible() == old(self).file_infallible(),
            match r {
                Some(item) => {
                    let e = chunk_scan(old(self).view(), old(self).pos()).0;
                    match item {
                        Ok(c) => {
                            &&& chunk_scan(old(self).view(), old(self).pos()).1
                            &&& final(self).view() == old(self).view()
                            &&& final(self).pos() == e
                            &&& c@ == old(self).view().subrange(old(self).pos(), e)
                        },
                        Err(er) => er is IOError && !old(self).file_infallible(),
                    }
                },
                None => !chunk_scan(old(self).view(), old(self).pos()).1 && final(self).view()
                    == old(self).view() && final(self).pos() == chunk_scan(
                    old(self).view(),
                    old(self).pos(),
                ).0,
            },
    {
        match self.stream.iter_chunk() {
            Ok(chunk) => Some(Ok(chunk)),
            Err(DBError::InvalidData) => None,
            Err(e) => Some(Err(e)),
        }
    }

    /// Flush and hand the file back.
    pub fn into_file(self) -> (r: Result<F, DBError>)
        requires
            self.wf(),
        ensures
            self.file_infallible() ==> r is Ok,
            match r {
                Ok(f) => f.contents() == self.view() && f.contents().len() <= usize::MAX
                    && f.inv() && f.infallible() == self.file_infallible(),
                Err(e) => e is IOError,
            },
    {
        let mut stream = self.stream;
        match stream.flush() {
            Ok(_) => Ok(stream.into_file()),
            Err(e) => Err(e),
        }
    }
}

} // verus!
