//! The block-aligned stream cache and the chunk stream built on it.
//!
//! The cache keeps a single window of at most `N` bytes mirroring an
//! absolute byte range of the file. All reads are block-granular; writes may
//! be any length and are buffered in the window until a flush. The cache is
//! the only component that touches the file: its `view` is the virtual file
//! — the file contents with the dirty window overlaid — and every operation
//! states exactly how it moves the cursor and transforms that view.

use vstd::prelude::*;

use crate::error::DBError;
use crate::layout::{
    chunk_scan, chunks_from, concat_chunks, le_val, lemma_chunk_scan_bounds, lemma_chunks_tile,
    lemma_concat_chunks_push, lemma_overlay_absorb, lemma_overlay_adjacent, lemma_overlay_resize,
    lemma_overlay_subrange, lemma_overlay_update, lemma_scan_suffix_eq, overlay_write, parse_end,
    renumber_chunk, seq_resize, shift_chunks, update_range, wf_tail,
};
use crate::serializer::{is_eoe_block, UIDSerializer};
use crate::traits::{read_amount, FileTrait};
use crate::BLOCK_SIZE;

verus! {

/// The absolute byte range `[start, end)` a cache window mirrors.
pub struct Range {
    pub start: usize,
    pub end: usize,
}

impl Range {
    /// The empty range at the start of the file.
    pub fn new() -> (r: Range)
        ensures
            r.start == 0,
            r.end == 0,
    {
        let start: usize = 0;
        let end: usize = 0;
        Range { start, end }
    }

    /// Move the lower bound.
    pub fn set_start(&mut self, start: usize)
        ensures
            final(self).start == start,
            final(self).end == old(self).end,
    {
        self.start = start;
    }

    /// Move the upper bound.
    pub fn set_end(&mut self, end: usize)
        ensures
            final(self).start == old(self).start,
            final(self).end == end,
    {
        self.end = end;
    }

    /// How many bytes the range covers.
    pub fn length(&self) -> (r: usize)
        requires
            self.start <= self.end,
        ensures
            r == self.end - self.start,
    {
        self.end - self.start
    }
}

/// A single-window, block-aligned page over a file.
///
/// `N` is the window size in bytes: a non-zero multiple of [`BLOCK_SIZE`].
pub struct DBStreamCache<F: FileTrait, const N: usize> {
    file: F,
    cache_offset: usize,
    cache_range: Range,
    cache_buffer: Vec<u8>,
    cache_written: bool,
}

impl<F: FileTrait, const N: usize> DBStreamCache<F, N> {
    /// The bytes the window currently holds.
    pub closed spec fn window(&self) -> Seq<u8> {
        self.cache_buffer@.subrange(
            0,
            self.cache_range.end - self.cache_range.start,
        )
    }

    /// The virtual file: the real contents with the dirty window overlaid.
    /// This is what every read sees and what a flush makes real.
    pub closed spec fn view(&self) -> Seq<u8> {
        if self.cache_written {
            overlay_write(self.file.contents(), self.cache_range.start as int, self.window())
        } else {
            self.file.contents()
        }
    }

    /// The logical stream position: the next byte a read would return.
    pub closed spec fn pos(&self) -> int {
        self.cache_range.start + self.cache_offset
    }

    /// True when no buffered write is pending: the real file equals the
    /// virtual one.
    pub closed spec fn synced(&self) -> bool {
        !self.cache_written
    }

    /// Whether the underlying file can fail.
    pub closed spec fn file_infallible(&self) -> bool {
        self.file.infallible()
    }

    /// Structural well-formedness, preserved by every operation.
    pub closed spec fn wf(&self) -> bool {
        &&& self.cache_buffer@.len() == N
        &&& N >= BLOCK_SIZE
        &&& N % BLOCK_SIZE == 0
        &&& self.cache_range.start <= self.cache_range.end
        &&& self.cache_range.end - self.cache_range.start <= N
        &&& self.cache_offset <= self.cache_range.end - self.cache_range.start
        &&& self.file.inv()
        &&& self.file.contents().len() <= usize::MAX
        &&& !self.cache_written ==> (self.cache_range.start == self.cache_range.end) || (
        self.cache_range.end <= self.file.contents().len() && self.window()
            == self.file.contents().subrange(
            self.cache_range.start as int,
            self.cache_range.end as int,
        ))
    }

    proof fn lemma_view_len(&self)
        requires
            self.wf(),
        ensures
            self.view().len() <= usize::MAX,
            self.cache_range.start < self.cache_range.end ==> self.cache_range.end as int
                <= self.view().len() && self.window() == self.view().subrange(
                self.cache_range.start as int,
                self.cache_range.end as int,
            ),
    {
        let s = self.cache_range.start as int;
        let e = self.cache_range.end as int;
        if self.cache_written {
            if self.window().len() == 0 {
            } else {
                lemma_overlay_subrange(self.file.contents(), s, self.window());
            }
        } else {
            if s < e {
                assert(self.window() =~= self.view().subrange(s, e));
            }
        }
    }

    /// The logical stream position as a number.
    pub fn cache_position(&self) -> (r: usize)
        requires
            self.wf(),
        ensures
            r == self.pos(),
    {
        self.cache_range.start + self.cache_offset
    }

    /// Copy `buf` into the window at the current offset and advance over
    /// it; the window is now dirty.
    fn copy_into_cache(&mut self, buf: &Vec<u8>)
        requires
            old(self).cache_buffer@.len() == N,
            old(self).cache_offset + buf@.len() <= N,
        ensures
            final(self).cache_buffer@ == update_range(
                old(self).cache_buffer@,
                old(self).cache_offset as int,
                buf@,
            ),
            final(self).cache_offset == old(self).cache_offset + buf@.len(),
            final(self).cache_written,
            final(self).cache_range == old(self).cache_range,
            final(self).file == old(self).file,
    {
        let at: usize = self.cache_offset;
        let mut i: usize = 0;
        while i < buf.len()
            invariant
                i <= buf@.len(),
                at + buf@.len() <= N,
                self.cache_buffer@.len() == N,
                self.cache_buffer@ == update_range(
                    old(self).cache_buffer@,
                    at as int,
                    buf@.take(i as int),
                ),
                self.cache_buffer@.len() == old(self).cache_buffer@.len(),
                at == old(self).cache_offset,
                self.cache_offset == old(self).cache_offset,
                self.cache_range == old(self).cache_range,
                self.cache_written == old(self).cache_written,
                self.file == old(self).file,
            decreases buf@.len() - i,
        {
            let idx: usize = at + i;
            self.cache_buffer[idx] = buf[i];
            assert(self.cache_buffer@ =~= update_range(
                old(self).cache_buffer@,
                at as int,
                buf@.take(i + 1),
            ));
            i = i + 1;
        }
        assert(buf@.take(buf@.len() as int) =~= buf@);
        self.cache_offset = self.cache_offset + buf.len();
        self.cache_written = true;
    }

    /// The window bytes as a vector.
    fn window_to_vec(&self) -> (r: Vec<u8>)
        requires
            self.wf(),
        ensures
            r@ == self.window(),
    {
        let len: usize = self.cache_range.end - self.cache_range.start;
        let mut out: Vec<u8> = Vec::new();
        let mut i: usize = 0;
        while i < len
            invariant
                i <= len,
                len <= self.cache_buffer@.len(),
                out@ == self.cache_buffer@.subrange(0, i as int),
            decreases len - i,
        {
            out.push(self.cache_buffer[i]);
            assert(out@ =~= self.cache_buffer@.subrange(0, i + 1));
            i = i + 1;
        }
        out
    }

    /// Write the dirty window back to the file. On success the real file
    /// equals the virtual one; the view and the position do not move.
    pub fn flush_cache_buffer(&mut self) -> (r: Result<(), DBError>)
        requires
            old(self).wf(),
        ensures
            final(self).wf(),
            final(self).file_infallible() == old(self).file_infallible(),
            final(self).pos() == old(self).pos(),
            old(self).file_infallible() ==> r is Ok,
            match r {
                Ok(u) => {
                    &&& final(self).view() == old(self).view()
                    &&& final(self).synced()
                },
                Err(e) => e is IOError,
            },
    {
        proof {
            self.lemma_view_len();
        }
        if self.cache_written {
            let length: usize = self.cache_range.end - self.cache_range.start;
            if length > 0 {
                let start: usize = self.cache_range.start;
                match self.file.seek(start) {
                    Ok(_) => {},
                    Err(e) => {
                        return Err(e);
                    },
                }
                let buffer: Vec<u8> = self.window_to_vec();
                match self.file.write(&buffer) {
                    Ok(_) => {},
                    Err(e) => {
                        return Err(e);
                    },
                }
                self.cache_written = false;
                proof {
                    lemma_overlay_subrange(
                        old(self).file.contents(),
                        start as int,
                        old(self).window(),
                    );
                    assert(self.window() =~= self.file.contents().subrange(
                        self.cache_range.start as int,
                        self.cache_range.end as int,
                    ));
                }
                return Ok(());
            }
            self.cache_written = false;
            return Ok(());
        }
        Ok(())
    }

    /// Anchor the window at `start`: load up to `N` bytes there. At or past
    /// the end of the file this leaves an empty window; the view is
    /// untouched and the position becomes `start`.
    fn cache_from_start(&mut self, start: usize) -> (r: Result<(), DBError>)
        requires
            old(self).wf(),
            old(self).synced(),
        ensures
            final(self).wf(),
            final(self).file_infallible() == old(self).file_infallible(),
            old(self).file_infallible() ==> r is Ok,
            final(self).pos() == start,
            match r {
                Ok(u) => {
                    &&& final(self).view() == old(self).view()
                    &&& final(self).synced()
                    &&& final(self).cache_range.start == start
                    &&& final(self).cache_range.end - final(self).cache_range.start
                        == read_amount(old(self).view().len() as int, start as int, N as int)
                    &&& final(self).cache_offset == 0
                },
                Err(e) => e is IOError,
            },
    {
        // Empty the window first, so the cache stays well-formed even if
        // the file fails mid-way.
        self.cache_range.start = start;
        self.cache_range.end = start;
        self.cache_offset = 0;
        match self.file.seek(start) {
            Ok(_) => {},
            Err(e) => {
                return Err(e);
            },
        }
        let data: Vec<u8> = match self.file.read(N) {
            Ok(d) => d,
            Err(e) => {
                return Err(e);
            },
        };
        let len: usize = data.len();
        // Copy what was read into the window buffer.
        let mut i: usize = 0;
        while i < len
            invariant
                i <= len,
                len <= self.cache_buffer@.len(),
                len == data@.len(),
                self.cache_buffer@.len() == old(self).cache_buffer@.len(),
                self.cache_buffer@.subrange(0, i as int) == data@.subrange(0, i as int),
                self.cache_range.start == start,
                self.cache_range.end == start,
                self.cache_offset == 0,
                self.cache_written == old(self).cache_written,
                self.file.contents() == old(self).file.contents(),
                self.file.inv(),
                self.file.infallible() == old(self).file.infallible(),
                len > 0 ==> data@ == self.file.contents().subrange(start as int, start + len),
            decreases len - i,
        {
            self.cache_buffer[i] = data[i];
            assert(self.cache_buffer@.subrange(0, i + 1) =~= data@.subrange(0, i + 1));
            i = i + 1;
        }
        self.cache_offset = 0;
        self.cache_written = false;
        self.cache_range.start = start;
        self.cache_range.end = start + len;
        if len > 0 {
            assert(self.window() =~= self.file.contents().subrange(
                self.cache_range.start as int,
                self.cache_range.end as int,
            ));
        }
        Ok(())
    }

    /// A cache over `file`, positioned at the start; nothing is loaded yet.
    pub fn new(file: F) -> (r: Self)
        requires
            N >= BLOCK_SIZE,
            N % BLOCK_SIZE == 0,
            file.inv(),
            file.contents().len() <= usize::MAX,
        ensures
            r.wf(),
            r.view() == file.contents(),
            r.pos() == 0,
            r.synced(),
            r.file_infallible() == file.infallible(),
    {
        let mut cache_buffer: Vec<u8> = Vec::new();
        let mut i: usize = 0;
        while i < N
            invariant
                i <= N,
                cache_buffer@.len() == i,
            decreases N - i,
        {
            cache_buffer.push(0u8);
            i = i + 1;
        }
        let cache_offset: usize = 0;
        let cache_range: Range = Range::new();
        let cache_written: bool = false;
        DBStreamCache { file, cache_offset, cache_range, cache_buffer, cache_written }
    }

    /// Hand the file back. Flush first: the file holds exactly the view.
    pub fn into_file(self) -> (r: F)
        requires
            self.wf(),
            self.synced(),
        ensures
            r.contents() == self.view(),
            r.contents().len() <= usize::MAX,
            r.inv(),
            r.infallible() == self.file_infallible(),
    {
        proof {
            self.lemma_view_len();
        }
        self.file
    }

    /// Read the next block at the stream position. Fewer than a block left
    /// means `EndOfFileStream`, and the position does not move.
    pub fn read(&mut self) -> (r: Result<Vec<u8>, DBError>)
        requires
            old(self).wf(),
        ensures
            final(self).wf(),
            final(self).file_infallible() == old(self).file_infallible(),
            old(self).file_infallible() ==> !(r matches Err(e) && e is IOError),
            match r {
                Ok(b) => {
                    &&& b@.len() == BLOCK_SIZE
                    &&& old(self).pos() + BLOCK_SIZE <= old(self).view().len()
                    &&& b@ == old(self).view().subrange(
                        old(self).pos(),
                        old(self).pos() + BLOCK_SIZE,
                    )
                    &&& final(self).view() == old(self).view()
                    &&& final(self).pos() == old(self).pos() + BLOCK_SIZE
                },
                Err(e) => {
                    &&& (e is EndOfFileStream || e is IOError)
                    &&& final(self).pos() == old(self).pos()
                    &&& e is EndOfFileStream ==> final(self).view() == old(self).view() && old(
                        self,
                    ).pos() + BLOCK_SIZE > old(self).view().len() && final(self).synced()
                },
            },
    {
        proof {
            self.lemma_view_len();
        }
        let window_len: usize = self.cache_range.end - self.cache_range.start;
        if window_len >= BLOCK_SIZE && self.cache_offset <= window_len - BLOCK_SIZE {
            let out: Vec<u8> = self.read_block_from_window();
            self.cache_offset = self.cache_offset + BLOCK_SIZE;
            return Ok(out);
        }
        match self.flush_cache_buffer() {
            Ok(_) => {},
            Err(e) => {
                return Err(e);
            },
        }
        let p: usize = self.cache_range.start + self.cache_offset;
        match self.cache_from_start(p) {
            Ok(_) => {},
            Err(e) => {
                return Err(e);
            },
        }
        proof {
            self.lemma_view_len();
        }
        let new_len: usize = self.cache_range.end - self.cache_range.start;
        if new_len >= BLOCK_SIZE {
            let out: Vec<u8> = self.read_block_from_window();
            self.cache_offset = BLOCK_SIZE;
            return Ok(out);
        }
        Err(DBError::EndOfFileStream)
    }

    /// The block at the window offset.
    fn read_block_from_window(&self) -> (r: Vec<u8>)
        requires
            self.wf(),
            self.cache_offset + BLOCK_SIZE <= self.cache_range.end - self.cache_range.start,
        ensures
            r@.len() == BLOCK_SIZE,
            r@ == self.window().subrange(
                self.cache_offset as int,
                self.cache_offset + BLOCK_SIZE,
            ),
    {
        let mut out: Vec<u8> = Vec::new();
        out.push(self.cache_buffer[self.cache_offset]);
        out.push(self.cache_buffer[self.cache_offset + 1]);
        out.push(self.cache_buffer[self.cache_offset + 2]);
        out.push(self.cache_buffer[self.cache_offset + 3]);
        assert(out@ =~= self.window().subrange(
            self.cache_offset as int,
            self.cache_offset + BLOCK_SIZE,
        ));
        out
    }

    /// Write `buffer` at the stream position: buffered in the window when it
    /// fits, straight to the file when larger than the window. On success
    /// the view gains exactly `buffer` at the old position and the position
    /// moves past it.
    pub fn write(&mut self, buffer: &Vec<u8>) -> (r: Result<usize, DBError>)
        requires
            old(self).wf(),
            old(self).pos() + buffer@.len() <= usize::MAX,
        ensures
            final(self).wf(),
            final(self).file_infallible() == old(self).file_infallible(),
            old(self).file_infallible() ==> r is Ok,
            match r {
                Ok(k) => {
                    &&& k == buffer@.len()
                    &&& final(self).view() == overlay_write(
                        old(self).view(),
                        old(self).pos(),
                        buffer@,
                    )
                    &&& final(self).pos() == old(self).pos() + buffer@.len()
                },
                Err(e) => e is IOError,
            },
    {
        proof {
            self.lemma_view_len();
        }
        if buffer.len() > N {
            return self.write_to_file(buffer);
        }
        if buffer.len() == 0 {
            return Ok(0);
        }
        let window_len: usize = self.cache_range.end - self.cache_range.start;
        if buffer.len() <= window_len && self.cache_offset <= window_len - buffer.len() {
            self.write_into_window(buffer);
            return Ok(buffer.len());
        }
        match self.flush_cache_buffer() {
            Ok(_) => {},
            Err(e) => {
                return Err(e);
            },
        }
        let start: usize = self.cache_range.start + self.cache_offset;
        match self.cache_from_start(start) {
            Ok(_) => {},
            Err(e) => {
                return Err(e);
            },
        }
        proof {
            self.lemma_view_len();
        }
        let new_len: usize = self.cache_range.end - self.cache_range.start;
        if buffer.len() <= new_len {
            self.write_into_window(buffer);
            return Ok(buffer.len());
        }
        self.cache_write_end(buffer, start)
    }

    /// Buffer `buffer` inside the current window at the window offset.
    fn write_into_window(&mut self, buffer: &Vec<u8>)
        requires
            old(self).wf(),
            buffer@.len() > 0,
            old(self).cache_offset + buffer@.len() <= old(self).cache_range.end - old(
                self,
            ).cache_range.start,
        ensures
            final(self).wf(),
            final(self).file_infallible() == old(self).file_infallible(),
            final(self).view() == overlay_write(old(self).view(), old(self).pos(), buffer@),
            final(self).pos() == old(self).pos() + buffer@.len(),
    {
        proof {
            self.lemma_view_len();
        }
        let ghost oldw = old(self).window();
        let ghost base = old(self).file.contents();
        let ghost s = old(self).cache_range.start as int;
        let ghost e = old(self).cache_range.end as int;
        let ghost o = old(self).cache_offset as int;
        self.copy_into_cache(buffer);
        proof {
            assert(self.window() =~= update_range(oldw, o, buffer@));
            if old(self).cache_written {
                lemma_overlay_update(base, s, oldw, o, buffer@);
            } else {
                lemma_overlay_update(base, s, oldw, o, buffer@);
                lemma_overlay_absorb(base, s, e);
            }
        }
    }

    /// Start a fresh dirty window holding exactly `buffer`, anchored at
    /// `start`: the tail write that extends the file.
    fn cache_write_end(&mut self, buffer: &Vec<u8>, start: usize) -> (r: Result<usize, DBError>)
        requires
            old(self).wf(),
            old(self).synced(),
            old(self).cache_range.start == start,
            old(self).cache_offset == 0,
            old(self).view().len() <= start + (old(self).cache_range.end
                - old(self).cache_range.start),
            old(self).cache_range.end - old(self).cache_range.start < buffer@.len(),
            buffer@.len() <= N,
            start + buffer@.len() <= usize::MAX,
        ensures
            final(self).wf(),
            final(self).file_infallible() == old(self).file_infallible(),
            r is Ok,
            match r {
                Ok(k) => {
                    &&& k == buffer@.len()
                    &&& final(self).view() == overlay_write(
                        old(self).view(),
                        start as int,
                        buffer@,
                    )
                    &&& final(self).pos() == start + buffer@.len()
                },
                Err(e) => false,
            },
    {
        let ghost base = old(self).file.contents();
        self.copy_into_cache(buffer);
        self.cache_range.set_end(start + buffer.len());
        proof {
            assert(self.window() =~= buffer@);
            assert(overlay_write(base, start as int, buffer@) =~= overlay_write(
                old(self).view(),
                start as int,
                buffer@,
            ));
        }
        Ok(buffer.len())
    }

    /// Write `buffer` straight to the file past the cache, leaving an empty
    /// window just after it.
    fn write_to_file(&mut self, buffer: &Vec<u8>) -> (r: Result<usize, DBError>)
        requires
            old(self).wf(),
            old(self).pos() + buffer@.len() <= usize::MAX,
        ensures
            final(self).wf(),
            final(self).file_infallible() == old(self).file_infallible(),
            old(self).file_infallible() ==> r is Ok,
            match r {
                Ok(k) => {
                    &&& k == buffer@.len()
                    &&& final(self).view() == overlay_write(
                        old(self).view(),
                        old(self).pos(),
                        buffer@,
                    )
                    &&& final(self).pos() == old(self).pos() + buffer@.len()
                },
                Err(e) => e is IOError,
            },
    {
        proof {
            self.lemma_view_len();
        }
        match self.flush_cache_buffer() {
            Ok(_) => {},
            Err(e) => {
                return Err(e);
            },
        }
        let p: usize = self.cache_range.start + self.cache_offset;
        // Empty the window first, so the cache stays well-formed even if
        // the file fails mid-way.
        self.cache_range.start = p;
        self.cache_range.end = p;
        self.cache_offset = 0;
        match self.file.seek(p) {
            Ok(_) => {},
            Err(e) => {
                return Err(e);
            },
        }
        match self.file.write(buffer) {
            Ok(_) => {},
            Err(e) => {
                return Err(e);
            },
        }
        let q: usize = p + buffer.len();
        self.cache_range.start = q;
        self.cache_range.end = q;
        self.cache_offset = 0;
        self.cache_written = false;
        Ok(buffer.len())
    }

    /// Move the stream position to `start`: inside the current window this
    /// is free, otherwise the window is flushed and re-anchored there.
    pub fn seek_from_start(&mut self, start: usize) -> (r: Result<usize, DBError>)
        requires
            old(self).wf(),
        ensures
            final(self).wf(),
            final(self).file_infallible() == old(self).file_infallible(),
            old(self).file_infallible() ==> r is Ok,
            match r {
                Ok(q) => {
                    &&& q == start
                    &&& final(self).view() == old(self).view()
                    &&& final(self).pos() == start
                },
                Err(e) => e is IOError,
            },
    {
        let cache_st: usize = self.cache_range.start;
        let cache_en: usize = self.cache_range.end;
        if cache_st <= start && start <= cache_en {
            self.cache_offset = start - cache_st;
            return Ok(start);
        }
        match self.flush_cache_buffer() {
            Ok(_) => {},
            Err(e) => {
                return Err(e);
            },
        }
        match self.cache_from_start(start) {
            Ok(_) => {},
            Err(e) => {
                return Err(e);
            },
        }
        Ok(start)
    }

    /// Truncate or zero-extend the virtual file to `size` bytes; the
    /// position is clamped to the new end.
    pub fn set_len(&mut self, size: usize) -> (r: Result<(), DBError>)
        requires
            old(self).wf(),
        ensures
            final(self).wf(),
            final(self).file_infallible() == old(self).file_infallible(),
            old(self).file_infallible() ==> r is Ok,
            match r {
                Ok(u) => {
                    &&& final(self).view() == seq_resize(old(self).view(), size as int)
                    &&& final(self).pos() == if old(self).pos() <= size {
                        old(self).pos()
                    } else {
                        size as int
                    }
                },
                Err(e) => e is IOError,
            },
    {
        proof {
            self.lemma_view_len();
        }
        let ghost base = old(self).file.contents();
        let ghost oldw = old(self).window();
        let ghost s = old(self).cache_range.start as int;
        let ghost e = old(self).cache_range.end as int;
        match self.file.set_len(size) {
            Ok(_) => {},
            Err(er) => {
                // The file is in an unknown state: drop the window so the
                // cache stays well-formed.
                self.cache_range.start = 0;
                self.cache_range.end = 0;
                self.cache_offset = 0;
                self.cache_written = false;
                return Err(er);
            },
        }
        if size <= self.cache_range.start {
            self.cache_range.start = size;
            self.cache_range.end = size;
            self.cache_offset = 0;
            self.cache_written = false;
            proof {
                assert(self.view() =~= seq_resize(old(self).view(), size as int));
            }
            return Ok(());
        }
        if size < self.cache_range.end {
            self.cache_range.end = size;
            let limit: usize = size - self.cache_range.start;
            if self.cache_offset > limit {
                self.cache_offset = limit;
            }
            proof {
                assert(self.window() =~= oldw.subrange(0, size - s));
                if old(self).cache_written {
                    assert(self.view() =~= seq_resize(old(self).view(), size as int));
                } else {
                    assert(self.window() =~= self.file.contents().subrange(
                        s,
                        size as int,
                    ));
                    assert(self.view() =~= seq_resize(old(self).view(), size as int));
                }
            }
            return Ok(());
        }
        proof {
            if old(self).cache_written {
                assert(self.view() =~= seq_resize(old(self).view(), size as int));
            } else {
                if self.cache_range.start < self.cache_range.end {
                    assert(self.window() =~= self.file.contents().subrange(s, e));
                }
                assert(self.view() =~= seq_resize(old(self).view(), size as int));
            }
        }
        Ok(())
    }
}


/// The chunk stream: interprets the virtual file as a sequence of chunks
/// terminated by the end-of-entry sentinel, and performs the chunk-level
/// operations — iteration, append, and the compacting delete.
pub struct DBFileStream<F: FileTrait, const N: usize> {
    stream: DBStreamCache<F, N>,
    uid_serializer: UIDSerializer,
}

impl<F: FileTrait, const N: usize> DBFileStream<F, N> {
    /// The virtual file the stream walks.
    pub closed spec fn view(&self) -> Seq<u8> {
        self.stream.view()
    }

    /// The stream position.
    pub closed spec fn pos(&self) -> int {
        self.stream.pos()
    }

    pub closed spec fn wf(&self) -> bool {
        self.stream.wf()
    }

    pub closed spec fn synced(&self) -> bool {
        self.stream.synced()
    }

    pub closed spec fn file_infallible(&self) -> bool {
        self.stream.file_infallible()
    }

    /// A chunk stream over `file`, positioned at the start.
    pub fn new(file: F) -> (r: Self)
        requires
            N >= BLOCK_SIZE,
            N % BLOCK_SIZE == 0,
            file.inv(),
            file.contents().len() <= usize::MAX,
        ensures
            r.wf(),
            r.view() == file.contents(),
            r.pos() == 0,
            r.synced(),
            r.file_infallible() == file.infallible(),
    {
        let stream: DBStreamCache<F, N> = DBStreamCache::new(file);
        let uid_serializer: UIDSerializer = UIDSerializer::new();
        DBFileStream { stream, uid_serializer }
    }

    /// Write the buffered window back; afterwards the file holds exactly
    /// the view.
    pub fn flush(&mut self) -> (r: Result<(), DBError>)
        requires
            old(self).wf(),
        ensures
            final(self).wf(),
            final(self).file_infallible() == old(self).file_infallible(),
            old(self).file_infallible() ==> r is Ok,
            match r {
                Ok(u) => {
                    &&& final(self).view() == old(self).view()
                    &&& final(self).pos() == old(self).pos()
                    &&& final(self).synced()
                },
                Err(e) => e is IOError,
            },
    {
        self.stream.flush_cache_buffer()
    }

    /// Hand the file back; flush first so it holds exactly the view.
    pub fn into_file(self) -> (r: F)
        requires
            self.wf(),
            self.synced(),
        ensures
            r.contents() == self.view(),
            r.contents().len() <= usize::MAX,
            r.inv(),
            r.infallible() == self.file_infallible(),
    {
        self.stream.into_file()
    }

    /// Move the stream position.
    pub fn seek_from_start(&mut self, start: usize) -> (r: Result<usize, DBError>)
        requires
            old(self).wf(),
        ensures
            final(self).wf(),
            final(self).file_infallible() == old(self).file_infallible(),
            old(self).file_infallible() ==> r is Ok,
            match r {
                Ok(q) => {
                    &&& q == start
                    &&& final(self).view() == old(self).view()
                    &&& final(self).pos() == start
                },
                Err(e) => e is IOError,
            },
    {
        self.stream.seek_from_start(start)
    }

    /// The next block, or `None` at the end of the stream (or on a host
    /// failure).
    pub fn next(&mut self) -> (r: Option<Vec<u8>>)
        requires
            old(self).wf(),
        ensures
            final(self).wf(),
            final(self).file_infallible() == old(self).file_infallible(),
            match r {
                Some(b) => {
                    &&& b@.len() == BLOCK_SIZE
                    &&& old(self).pos() + BLOCK_SIZE <= old(self).view().len()
                    &&& b@ == old(self).view().subrange(
                        old(self).pos(),
                        old(self).pos() + BLOCK_SIZE,
                    )
                    &&& final(self).view() == old(self).view()
                    &&& final(self).pos() == old(self).pos() + BLOCK_SIZE
                },
                None => final(self).pos() == old(self).pos() && (old(self).file_infallible()
                    ==> final(self).view() == old(self).view() && old(self).pos() + BLOCK_SIZE
                    > old(self).view().len() && final(self).synced()),
            },
    {
        match self.stream.read() {
            Ok(buffer) => Some(buffer),
            Err(_) => None,
        }
    }

    /// Collect the chunk at the stream position: every block up to and
    /// including the sentinel. `InvalidData` when the stream ends first.
    pub fn iter_chunk(&mut self) -> (r: Result<Vec<u8>, DBError>)
        requires
            old(self).wf(),
        ensures
            final(self).wf(),
            final(self).file_infallible() == old(self).file_infallible(),
            match r {
                Ok(c) => {
                    &&& c@.len() >= BLOCK_SIZE
                    &&& chunk_scan(old(self).view(), old(self).pos()) == (
                        old(self).pos() + c@.len(),
                        true,
                    )
                    &&& c@ == old(self).view().subrange(
                        old(self).pos(),
                        old(self).pos() + c@.len(),
                    )
                    &&& final(self).view() == old(self).view()
                    &&& final(self).pos() == old(self).pos() + c@.len()
                },
                Err(e) => {
                    &&& (e is InvalidData || e is IOError)
                    &&& old(self).pos() <= final(self).pos()
                    &&& final(self).pos() <= old(self).view().len() || final(self).pos() == old(
                        self,
                    ).pos()
                    &&& e is IOError ==> !old(self).file_infallible()
                    &&& e is InvalidData ==> !chunk_scan(old(self).view(), old(self).pos()).1
                        && final(self).view() == old(self).view() && final(self).pos()
                        == chunk_scan(old(self).view(), old(self).pos()).0 && final(self).synced()
                },
            },
    {
        let ghost view0 = self.view();
        let ghost p0 = self.pos();
        let mut data: Vec<u8> = Vec::new();
        loop
            invariant
                self.wf(),
                self.file_infallible() == old(self).file_infallible(),
                self.view() == view0,
                view0 == old(self).view(),
                p0 == old(self).pos(),
                0 <= p0,
                self.pos() == p0 + data@.len(),
                data@.len() % 4 == 0,
                data@.len() > 0 ==> data@ == view0.subrange(p0, p0 + data@.len()),
                data@.len() > 0 ==> p0 + data@.len() <= view0.len(),
                self.pos() <= view0.len() || self.pos() == p0,
                p0 <= view0.len() ==> self.pos() <= view0.len(),
                chunk_scan(view0, p0) == chunk_scan(view0, self.pos()),
            decreases view0.len() - self.pos(),
        {
            let ghost p = self.pos();
            match self.stream.read() {
                Err(e) => {
                    // The end of the stream inside a chunk is corrupt data;
                    // a host failure keeps its own kind.
                    match e {
                        DBError::EndOfFileStream => {
                            return Err(DBError::InvalidData);
                        },
                        other => {
                            return Err(other);
                        },
                    }
                },
                Ok(block) => {
                    let at_end: bool = is_eoe_block(&block);
                    let mut tail: Vec<u8> = block;
                    let ghost data0 = data@;
                    data.append(&mut tail);
                    proof {
                        assert(data@ =~= view0.subrange(p0, p0 + data@.len()));
                    }
                    if at_end {
                        proof {
                            assert(chunk_scan(view0, p) == (p + 4, true));
                        }
                        return Ok(data);
                    }
                    proof {
                        assert(chunk_scan(view0, p) == chunk_scan(view0, p + 4));
                    }
                },
            }
        }
    }

    /// The bounds of the chunk at the stream position: its start and the
    /// position just past its sentinel. The position is put back at the
    /// start.
    #[verifier::rlimit(60)]
    pub fn get_chunk_bounds(&mut self) -> (r: Result<(usize, usize), DBError>)
        requires
            old(self).wf(),
        ensures
            final(self).wf(),
            final(self).file_infallible() == old(self).file_infallible(),
            match r {
                Ok(bounds) => {
                    &&& bounds.0 == old(self).pos()
                    &&& chunk_scan(old(self).view(), old(self).pos()) == (bounds.1 as int, true)
                    &&& final(self).view() == old(self).view()
                    &&& final(self).pos() == old(self).pos()
                },
                Err(e) => {
                    &&& (e is InvalidData || e is IOError)
                    &&& e is IOError ==> !old(self).file_infallible()
                    &&& e is InvalidData ==> !chunk_scan(old(self).view(), old(self).pos()).1
                        && final(self).view() == old(self).view() && final(self).synced()
                },
            },
    {
        let cache_st: usize = self.stream.cache_position();
        let ghost view0 = self.view();
        loop
            invariant
                self.wf(),
                self.file_infallible() == old(self).file_infallible(),
                self.view() == view0,
                view0 == old(self).view(),
                cache_st as int == old(self).pos(),
                0 <= self.pos(),
                (self.pos() - cache_st) % 4 == 0,
                cache_st <= self.pos(),
                chunk_scan(view0, cache_st as int) == chunk_scan(view0, self.pos()),
            decreases view0.len() - self.pos(),
        {
            let ghost p = self.pos();
            match self.stream.read() {
                Err(e) => {
                    // The end of the stream inside a chunk is corrupt data;
                    // a host failure keeps its own kind.
                    match e {
                        DBError::EndOfFileStream => {
                            return Err(DBError::InvalidData);
                        },
                        other => {
                            return Err(other);
                        },
                    }
                },
                Ok(block) => {
                    if is_eoe_block(&block) {
                        proof {
                            assert(chunk_scan(view0, p) == (p + 4, true));
                        }
                        let cache_en: usize = self.stream.cache_position();
                        match self.stream.seek_from_start(cache_st) {
                            Ok(_) => {
                                return Ok((cache_st, cache_en));
                            },
                            Err(e) => {
                                return Err(e);
                            },
                        }
                    }
                    proof {
                        assert(chunk_scan(view0, p) == chunk_scan(view0, p + 4));
                    }
                },
            }
        }
    }

    /// The last chunk of the stream, if any chunk parses from the current
    /// position; the position ends up past everything parseable.
    pub fn last_chunk(&mut self) -> (r: Option<Vec<u8>>)
        requires
            old(self).wf(),
        ensures
            final(self).wf(),
            final(self).file_infallible() == old(self).file_infallible(),
            final(self).pos() <= old(self).view().len() || final(self).pos() == old(self).pos(),
            old(self).file_infallible() ==> {
                let cs = chunks_from(old(self).view(), old(self).pos());
                &&& final(self).view() == old(self).view()
                &&& final(self).synced()
                &&& final(self).pos() == chunk_scan(
                    old(self).view(),
                    parse_end(old(self).view(), old(self).pos()),
                ).0
                &&& match r {
                    Some(c) => cs.len() > 0 && c@ == cs[cs.len() - 1],
                    None => cs.len() == 0,
                }
            },
    {
        let ghost view0 = self.view();
        let ghost p0 = self.pos();
        let ghost cs = chunks_from(view0, p0);
        let ghost mut i_ghost: int = 0;
        let mut last_chunk: Option<Vec<u8>> = None;
        loop
            invariant
                self.wf(),
                self.file_infallible() == old(self).file_infallible(),
                self.view() == view0,
                view0 == old(self).view(),
                p0 == old(self).pos(),
                0 <= p0 <= self.pos(),
                self.pos() <= view0.len() || self.pos() == p0,
                cs == chunks_from(view0, p0),
                0 <= i_ghost <= cs.len(),
                chunks_from(view0, self.pos()) == cs.skip(i_ghost),
                parse_end(view0, self.pos()) == parse_end(view0, p0),
                i_ghost == 0 ==> last_chunk is None,
                i_ghost > 0 ==> (last_chunk matches Some(c) && c@ == cs[i_ghost - 1]),
            decreases view0.len() - self.pos(),
        {
            let ghost p = self.pos();
            match self.iter_chunk() {
                Ok(chunk) => {
                    proof {
                        lemma_chunk_scan_bounds(view0, p);
                        assert(cs.skip(i_ghost)[0] == chunk@);
                        assert(cs.skip(i_ghost).drop_first() =~= cs.skip(i_ghost + 1));
                        assert(chunks_from(view0, self.pos()) == cs.skip(i_ghost + 1));
                        assert(cs[i_ghost] == chunk@);
                        i_ghost = i_ghost + 1;
                    }
                    last_chunk = Some(chunk);
                },
                Err(_) => {
                    proof {
                        if self.file_infallible() {
                            assert(chunks_from(view0, p) =~= Seq::<Seq<u8>>::empty());
                            assert(cs.skip(i_ghost) =~= Seq::<Seq<u8>>::empty());
                            assert(i_ghost == cs.len());
                        }
                    }
                    return last_chunk;
                },
            }
        }
    }

    /// Advance past every parseable chunk, then write `data` there. On a
    /// file whose tail parses cleanly this appends `data` at the end.
    pub fn append_end(&mut self, data: &Vec<u8>) -> (r: Result<(), DBError>)
        requires
            old(self).wf(),
            old(self).pos() + data@.len() <= usize::MAX,
        ensures
            final(self).wf(),
            final(self).file_infallible() == old(self).file_infallible(),
            old(self).file_infallible() && old(self).view().len() + data@.len() <= usize::MAX
                ==> r is Ok && {
                let q = chunk_scan(old(self).view(), parse_end(old(self).view(), old(self).pos())).0;
                &&& final(self).view() == overlay_write(old(self).view(), q, data@)
                &&& final(self).pos() == q + data@.len()
                &&& (wf_tail(old(self).view(), old(self).pos()) ==> final(self).view() == old(
                    self,
                ).view() + data@)
            },
    {
        let ghost view0 = self.view();
        let ghost p0 = self.pos();
        loop
            invariant
                self.wf(),
                self.file_infallible() == old(self).file_infallible(),
                self.view() == view0,
                view0 == old(self).view(),
                p0 == old(self).pos(),
                0 <= p0 <= self.pos(),
                self.pos() <= view0.len() || self.pos() == p0,
                p0 + data@.len() <= usize::MAX,
                parse_end(view0, self.pos()) == parse_end(view0, p0),
            decreases view0.len() - self.pos(),
        {
            let ghost p = self.pos();
            match self.iter_chunk() {
                Ok(_) => {
                    proof {
                        lemma_chunk_scan_bounds(view0, p);
                    }
                },
                Err(DBError::InvalidData) => {
                    proof {
                        if self.file_infallible() {
                            assert(parse_end(view0, p) == p);
                            assert(self.pos() == chunk_scan(view0, p).0);
                            lemma_chunk_scan_bounds(view0, p);
                        }
                    }
                    let at: usize = self.stream.cache_position();
                    if data.len() > usize::MAX - at {
                        return Err(DBError::InvalidData);
                    }
                    match self.stream.write(data) {
                        Ok(_) => {
                            proof {
                                if self.file_infallible() && wf_tail(view0, p0) {
                                    lemma_chunk_scan_bounds(view0, parse_end(view0, p0));
                                    assert(overlay_write(view0, view0.len() as int, data@)
                                        =~= view0 + data@);
                                }
                            }
                            return Ok(());
                        },
                        Err(e) => {
                            return Err(e);
                        },
                    }
                },
                Err(e) => {
                    // A host failure: nothing is appended.
                    return Err(e);
                },
            }
        }
    }

    /// Shift every chunk after the current one left over it, renumbering
    /// UIDs consecutively from `uid`; returns the end of the shifted run.
    #[verifier::rlimit(100)]
    fn rebuild_database(&mut self, st_pos: usize, en_pos: usize, uid: u32) -> (r: Result<
        usize,
        DBError,
    >)
        requires
            old(self).wf(),
            0 <= st_pos < en_pos <= old(self).view().len(),
            old(self).pos() == en_pos,
        ensures
            final(self).wf(),
            final(self).file_infallible() == old(self).file_infallible(),
            old(self).file_infallible() ==> (r matches Ok(wp) && {
                let ds = chunks_from(old(self).view(), en_pos as int);
                let shifted = concat_chunks(shift_chunks(ds, uid as int));
                &&& wp == st_pos + shifted.len()
                &&& uid + ds.len() <= u32::MAX ==> final(self).view() == overlay_write(
                    old(self).view(),
                    st_pos as int,
                    shifted,
                )
            }),
    {
        let ghost s0 = old(self).view();
        let ghost ds = chunks_from(s0, en_pos as int);
        let ghost mut i_ghost: int = 0;
        let ghost mut w_bytes: Seq<u8> = Seq::<u8>::empty();
        let mut write_pos: usize = st_pos;
        let mut next_uid: u32 = uid;
        proof {
            lemma_chunks_tile(s0, en_pos as int);
        }
        loop
            invariant
                self.wf(),
                self.file_infallible() == old(self).file_infallible(),
                ds == chunks_from(s0, en_pos as int),
                s0 == old(self).view(),
                0 <= i_ghost <= ds.len(),
                0 <= st_pos < en_pos <= s0.len(),
                uid + ds.len() <= u32::MAX ==> next_uid as int == uid + i_ghost && w_bytes
                    == concat_chunks(shift_chunks(ds.take(i_ghost), uid as int)),
                en_pos + concat_chunks(ds).len() == parse_end(s0, en_pos as int) <= s0.len(),
                write_pos as int == st_pos + concat_chunks(ds.take(i_ghost)).len(),
                self.pos() == en_pos + concat_chunks(ds.take(i_ghost)).len(),
                w_bytes.len() == concat_chunks(ds.take(i_ghost)).len(),
                chunks_from(s0, self.pos()) == ds.skip(i_ghost),
                self.view() == overlay_write(s0, st_pos as int, w_bytes),
                self.view().len() == s0.len(),
                concat_chunks(ds.take(i_ghost)).len() <= concat_chunks(ds).len(),
            decreases ds.len() - i_ghost,
        {
            let ghost p = self.pos();
            match self.get_chunk_bounds() {
                Err(DBError::InvalidData) => {
                    proof {
                        if self.file_infallible() {
                            assert(forall|x: int|
                                p <= x < s0.len() ==> self.view()[x] == s0[x]);
                            lemma_scan_suffix_eq(self.view(), s0, p);
                            assert(chunks_from(s0, p) =~= Seq::<Seq<u8>>::empty());
                            assert(ds.skip(i_ghost) =~= Seq::<Seq<u8>>::empty());
                            assert(i_ghost == ds.len());
                            assert(ds.take(i_ghost) =~= ds);
                            crate::layout::lemma_chunks_min_len(s0, en_pos as int);
                            crate::layout::lemma_shift_concat_len(ds, uid as int);
                        }
                    }
                    return Ok(write_pos);
                },
                Err(e) => {
                    // A host failure mid-rebuild: surface it.
                    return Err(e);
                },
                Ok(bounds) => {
                    let en2: usize = bounds.1;
                    proof {
                        assert(forall|x: int| p <= x < s0.len() ==> self.view()[x] == s0[x]);
                        lemma_scan_suffix_eq(self.view(), s0, p);
                        assert(chunk_scan(s0, p) == (en2 as int, true));
                        assert(ds.skip(i_ghost).len() > 0);
                        assert(i_ghost < ds.len());
                    }
                    let mut next_chunk: Vec<u8> = match self.iter_chunk() {
                        Ok(c) => c,
                        Err(e) => {
                            return Err(e);
                        },
                    };
                    proof {
                        lemma_chunk_scan_bounds(s0, p);
                        assert(next_chunk@ =~= s0.subrange(p, en2 as int));
                        assert(chunks_from(s0, p) == seq![s0.subrange(p, en2 as int)]
                            + chunks_from(s0, en2 as int));
                        assert(ds.skip(i_ghost)[0] == next_chunk@);
                        assert(ds[i_ghost] == next_chunk@);
                    }
                    // Overwrite the chunk's UID block with the next dense UID.
                    let uid_block: Vec<u8> = self.uid_serializer.serialize_uid(next_uid);
                    let ghost chunk0 = next_chunk@;
                    next_chunk[0] = uid_block[0];
                    next_chunk[1] = uid_block[1];
                    next_chunk[2] = uid_block[2];
                    next_chunk[3] = uid_block[3];
                    proof {
                        assert(next_chunk@ =~= renumber_chunk(chunk0, next_uid));
                    }
                    match self.stream.seek_from_start(write_pos) {
                        Ok(_) => {},
                        Err(e) => {
                            return Err(e);
                        },
                    }
                    match self.stream.write(&next_chunk) {
                        Ok(_) => {},
                        Err(e) => {
                            return Err(e);
                        },
                    }
                    match self.stream.seek_from_start(en2) {
                        Ok(_) => {},
                        Err(e) => {
                            return Err(e);
                        },
                    }
                    proof {
                        lemma_overlay_adjacent(s0, st_pos as int, w_bytes, next_chunk@);
                        assert(ds.take(i_ghost + 1) =~= ds.take(i_ghost).push(ds[i_ghost]));
                        lemma_concat_chunks_push(ds.take(i_ghost), ds[i_ghost]);
                        if uid + ds.len() <= u32::MAX {
                            let taken = shift_chunks(ds.take(i_ghost), uid as int);
                            assert(shift_chunks(ds.take(i_ghost + 1), uid as int) =~= taken.push(
                                renumber_chunk(ds[i_ghost], next_uid),
                            ));
                            lemma_concat_chunks_push(
                                taken,
                                renumber_chunk(ds[i_ghost], next_uid),
                            );
                            assert(concat_chunks(shift_chunks(ds.take(i_ghost + 1), uid as int))
                                =~= w_bytes + next_chunk@);
                        }
                        assert(ds.skip(i_ghost).drop_first() =~= ds.skip(i_ghost + 1));
                        assert(chunks_from(s0, en2 as int) == ds.skip(i_ghost + 1));
                        crate::layout::lemma_concat_split(ds, i_ghost + 1);
                        w_bytes = w_bytes + next_chunk@;
                        i_ghost = i_ghost + 1;
                    }
                    write_pos = write_pos + next_chunk.len();
                    if next_uid < u32::MAX {
                        next_uid = next_uid + 1;
                    }
                },
            }
        }
    }

    /// Remove the chunk at the stream position: every following chunk is
    /// shifted left over it with its UID renumbered down by one, and the
    /// file is truncated past the shifted run.
    pub fn remove_chunk(&mut self) -> (r: Result<(), DBError>)
        requires
            old(self).wf(),
            0 <= old(self).pos() <= old(self).view().len(),
        ensures
            final(self).wf(),
            final(self).file_infallible() == old(self).file_infallible(),
            old(self).file_infallible() ==> match r {
                Ok(u) => chunk_scan(old(self).view(), old(self).pos()).1 && {
                    let p = old(self).pos();
                    let e = chunk_scan(old(self).view(), p).0;
                    let ds = chunks_from(old(self).view(), e);
                    let u0 = le_val(old(self).view().subrange(p, p + 4));
                    u0 + ds.len() <= u32::MAX ==> final(self).view() == old(self).view().subrange(
                        0,
                        p,
                    ) + concat_chunks(shift_chunks(ds, u0))
                },
                Err(e) => !chunk_scan(old(self).view(), old(self).pos()).1 && e is InvalidData
                    && final(self).view() == old(self).view(),
            },
    {
        let ghost s0 = self.view();
        let ghost p0 = self.pos();
        let bounds: (usize, usize) = match self.get_chunk_bounds() {
            Ok(b) => b,
            Err(e) => {
                return Err(e);
            },
        };
        let st_pos: usize = bounds.0;
        let en_pos: usize = bounds.1;
        proof {
            lemma_chunk_scan_bounds(s0, p0);
        }
        let current_chunk: Vec<u8> = match self.iter_chunk() {
            Ok(c) => c,
            Err(e) => {
                return Err(e);
            },
        };
        let current_uid: u32 = match self.uid_serializer.deserialize_uid(&current_chunk) {
            Ok(u) => u,
            Err(e) => {
                return Err(e);
            },
        };
        proof {
            assert(current_chunk@.subrange(0, 4) =~= s0.subrange(p0, p0 + 4));
        }
        let write_pos: usize = match self.rebuild_database(st_pos, en_pos, current_uid) {
            Ok(wp) => wp,
            Err(e) => {
                return Err(e);
            },
        };
        match self.stream.set_len(write_pos) {
            Ok(_) => {},
            Err(e) => {
                return Err(e);
            },
        }
        proof {
            if self.file_infallible() {
                let e = chunk_scan(s0, p0).0;
                let ds = chunks_from(s0, e);
                let shifted = concat_chunks(shift_chunks(ds, current_uid as int));
                lemma_chunks_tile(s0, e);
                lemma_overlay_resize(s0, st_pos as int, shifted);
            }
        }
        Ok(())
    }
}

} // verus!
