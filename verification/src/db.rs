//! The database facade: typed operations over the chunk stream.
//!
//! Every operation positions the stream at the start of the file, works
//! through the chunk stream, and flushes before returning. The contracts
//! are exact for a well-formed file over a file that cannot fail (the
//! in-memory file): they say byte for byte what the store holds afterwards.

use vstd::prelude::*;

use crate::error::DBError;
use crate::layout::{
    chunk_item_u32, chunk_item_val, chunk_scan, chunks_from, concat_chunks, eoe_val, le_val,
    lemma_chunk_ok_u32,
    lemma_chunk_scan_bounds, lemma_chunks_tile, lemma_concat_prefix, lemma_le32_roundtrip,
    lemma_pad_props, lemma_parse_end_not_found, lemma_wf_append, parse_end, shift_chunks,
    spec_chunk, spec_chunks_batch, spec_le32, wf_file,
};
use crate::serializer::{DBSerializer, UIDSerializer};
use crate::stream::DBFileStream;
use crate::structures::{DBChunkIterator, DBEntry, DBIterator};
use crate::traits::FileTrait;
use crate::CACHE_SIZE;

verus! {

/// Some admitted run of the projector on `item` yields a value different
/// from `query`: the entry is allowed to be passed over by a scan.
pub open spec fn projects_away<V: Fn(&u32) -> u32>(value: V, item: u32, query: u32) -> bool {
    exists|rv: u32| #[trigger] call_ensures(value, (&item,), rv) && rv != query
}

/// The store over one file: scanning, point lookup, predicate queries,
/// insertion and deletion by UID.
pub struct Database<F: FileTrait> {
    stream: DBFileStream<F, CACHE_SIZE>,
}

impl<F: FileTrait> Database<F> {
    /// The bytes of the store file (with any buffered write applied).
    pub closed spec fn view(&self) -> Seq<u8> {
        self.stream.view()
    }

    pub closed spec fn wf(&self) -> bool {
        self.stream.wf()
    }

    /// True when the real file holds exactly `view`.
    pub closed spec fn synced(&self) -> bool {
        self.stream.synced()
    }

    pub closed spec fn file_infallible(&self) -> bool {
        self.stream.file_infallible()
    }

    /// A store over `file`.
    pub fn new(file: F) -> (r: Self)
        requires
            file.inv(),
            file.contents().len() <= usize::MAX,
        ensures
            r.wf(),
            r.view() == file.contents(),
            r.synced(),
            r.file_infallible() == file.infallible(),
    {
        let stream: DBFileStream<F, CACHE_SIZE> = DBFileStream::new(file);
        Database { stream }
    }

    /// Flush and hand the file back: on success it holds exactly `view`.
    pub fn into_file(self) -> (r: Result<F, DBError>)
        requires
            self.wf(),
        ensures
            self.file_infallible() ==> r is Ok,
            match r {
                Ok(f) => f.contents() == self.view() && f.contents().len() <= usize::MAX
                    && f.inv() && f.infallible() == self.file_infallible(),
                Err(e) => e is IOError,
            },
    {
        let mut stream = self.stream;
        match stream.flush() {
            Ok(_) => Ok(stream.into_file()),
            Err(e) => Err(e),
        }
    }

    /// The UID one past the stored UID of the tail chunk, or zero for an
    /// empty file.
    fn get_uid_from_chunk(chunk: &Option<Vec<u8>>) -> (r: Result<u32, DBError>)
        ensures
            match r {
                Ok(u) => match chunk {
                    Some(c) => c@.len() >= 4 && u as int == le_val(c@.subrange(0, 4)) + 1,
                    None => u == 0,
                },
                Err(e) => match chunk {
                    Some(c) => (c@.len() < 4 && e is UIDDeserializeError) || (c@.len() >= 4
                        && le_val(c@.subrange(0, 4)) == u32::MAX && e is SerializeError),
                    None => false,
                },
            },
    {
        match chunk {
            Some(c) => {
                let uid_serializer = UIDSerializer::new();
                let uid: u32 = match uid_serializer.deserialize_uid(c) {
                    Ok(u) => u,
                    Err(e) => {
                        return Err(e);
                    },
                };
                if uid == u32::MAX {
                    return Err(DBError::SerializeError);
                }
                Ok(uid + 1)
            },
            None => Ok(0),
        }
    }

    /// Append one entry; its UID is one past the tail chunk's UID (zero on
    /// an empty file). Rejects a value that would collide with the
    /// end-of-entry sentinel.
    pub fn add_entry(&mut self, item: &u32) -> (r: Result<(), DBError>)
        requires
            old(self).wf(),
            old(self).view().len() + 12 <= usize::MAX,
        ensures
            final(self).wf(),
            final(self).file_infallible() == old(self).file_infallible(),
            old(self).file_infallible() && wf_file(old(self).view()) ==> {
                let n = chunks_from(old(self).view(), 0).len();
                let good = *item as int != eoe_val() && n < eoe_val();
                &&& (good ==> r is Ok && final(self).view() == old(self).view() + spec_chunk(
                    n as u32,
                    spec_le32(*item),
                ) && wf_file(final(self).view()) && chunks_from(final(self).view(), 0).len() == n
                    + 1 && final(self).synced())
                &&& (!good ==> (r matches Err(e) && e is SerializeError) && final(self).view()
                    == old(self).view())
            },
    {
        let ghost view0 = self.view();
        let ghost well = old(self).file_infallible() && wf_file(view0);
        let ghost n = chunks_from(view0, 0).len() as int;
        match self.stream.seek_from_start(0) {
            Ok(_) => {},
            Err(e) => {
                return Err(e);
            },
        }
        let last_chunk: Option<Vec<u8>> = self.stream.last_chunk();
        proof {
            if well {
                let cs = chunks_from(view0, 0);
                if n > 0 {
                    assert(last_chunk matches Some(c) && c@ == cs[n - 1]);
                    assert(cs[n - 1].subrange(0, 4) == spec_le32((n - 1) as u32));
                    lemma_le32_roundtrip((n - 1) as u32);
                }
            }
        }
        let uid: u32 = match Self::get_uid_from_chunk(&last_chunk) {
            Ok(u) => u,
            Err(e) => {
                proof {
                    if well {
                        assert(n <= eoe_val());
                        assert(false);
                    }
                }
                return Err(e);
            },
        };
        proof {
            if well {
                assert(uid as int == n);
            }
        }
        let db_serializer = DBSerializer::new();
        let data: Vec<u8> = match db_serializer.serialize(uid, item) {
            Ok(d) => d,
            Err(e) => {
                proof {
                    if well {
                        lemma_chunk_ok_u32(uid, *item);
                    }
                }
                return Err(e);
            },
        };
        proof {
            lemma_pad_props(spec_le32(*item));
            assert(data@.len() == 12);
            if well {
                lemma_chunk_ok_u32(uid, *item);
            }
        }
        match self.stream.append_end(&data) {
            Ok(_) => {},
            Err(e) => {
                return Err(e);
            },
        }
        proof {
            if well {
                lemma_chunks_tile(view0, 0);
                lemma_parse_end_not_found(view0, 0);
                lemma_chunk_scan_bounds(view0, parse_end(view0, 0));
                assert(chunk_scan(view0, parse_end(view0, 0)).0 == view0.len());
                assert(self.view() =~= view0 + data@);
                lemma_wf_append(view0, uid, spec_le32(*item));
            }
        }
        match self.stream.flush() {
            Ok(_) => Ok(()),
            Err(e) => Err(e),
        }
    }

    /// Append a batch of entries with consecutive UIDs, in the order given,
    /// exactly as the same single insertions would.
    pub fn add_entries(&mut self, items: &Vec<u32>) -> (r: Result<(), DBError>)
        requires
            old(self).wf(),
            old(self).view().len() + 12 * items@.len() + 12 <= usize::MAX,
        ensures
            final(self).wf(),
            final(self).file_infallible() == old(self).file_infallible(),
            old(self).file_infallible() && wf_file(old(self).view()) ==> {
                let n = chunks_from(old(self).view(), 0).len();
                let good = n + items@.len() <= eoe_val() && (forall|i: int|
                    0 <= i < items@.len() ==> #[trigger] items@[i] as int != eoe_val());
                &&& (good ==> r is Ok && final(self).view() == old(self).view()
                    + spec_chunks_batch(n as int, items@) && wf_file(final(self).view())
                    && chunks_from(final(self).view(), 0).len() == n + items@.len()
                    && final(self).synced())
                &&& (!good ==> (r matches Err(e) && e is SerializeError) && final(self).view()
                    == old(self).view())
            },
    {
        let ghost view0 = self.view();
        let ghost well = old(self).file_infallible() && wf_file(view0);
        let ghost n = chunks_from(view0, 0).len() as int;
        match self.stream.seek_from_start(0) {
            Ok(_) => {},
            Err(e) => {
                return Err(e);
            },
        }
        let last_chunk: Option<Vec<u8>> = self.stream.last_chunk();
        proof {
            if well {
                let cs = chunks_from(view0, 0);
                if n > 0 {
                    assert(last_chunk matches Some(c) && c@ == cs[n - 1]);
                    assert(cs[n - 1].subrange(0, 4) == spec_le32((n - 1) as u32));
                    lemma_le32_roundtrip((n - 1) as u32);
                }
            }
        }
        let uid: u32 = match Self::get_uid_from_chunk(&last_chunk) {
            Ok(u) => u,
            Err(e) => {
                proof {
                    if well {
                        assert(n <= eoe_val());
                        assert(false);
                    }
                }
                return Err(e);
            },
        };
        proof {
            if well {
                assert(uid as int == n);
            }
        }
        if items.len() > 0 && items.len() - 1 > (u32::MAX - uid) as usize {
            proof {
                if well {
                    assert(n + items@.len() > u32::MAX);
                    assert(n + items@.len() > eoe_val());
                }
            }
            return Err(DBError::SerializeError);
        }
        let db_serializer = DBSerializer::new();
        let data: Vec<u8> = match db_serializer.serialize_items(uid, items) {
            Ok(d) => d,
            Err(e) => {
                proof {
                    if well {
                        let j = choose|j: int|
                            0 <= j < items@.len() && !crate::layout::chunk_ok(
                                ((uid + j) % 0x100000000) as u32,
                                spec_le32(items@[j]),
                            );
                        lemma_chunk_ok_u32(((uid + j) % 0x100000000) as u32, items@[j]);
                        if items@[j] as int != eoe_val() {
                            assert((n + j) % 0x100000000 == eoe_val());
                            assert(n + items@.len() > eoe_val());
                        }
                    }
                }
                return Err(e);
            },
        };
        proof {
            lemma_batch_len(uid as int, items@);
            if well {
                assert forall|i: int|
                    0 <= i < items@.len() implies #[trigger] items@[i] as int != eoe_val() by {
                    lemma_chunk_ok_u32(((uid + i) % 0x100000000) as u32, items@[i]);
                }
                assert(n + items@.len() <= eoe_val()) by {
                    if n + items@.len() > eoe_val() {
                        let k = eoe_val() - n;
                        assert(0 <= k < items@.len());
                        assert((uid + k) % 0x100000000 == eoe_val());
                        lemma_chunk_ok_u32(((uid + k) % 0x100000000) as u32, items@[k]);
                    }
                }
            }
        }
        match self.stream.append_end(&data) {
            Ok(_) => {},
            Err(e) => {
                return Err(e);
            },
        }
        proof {
            if well {
                lemma_chunks_tile(view0, 0);
                lemma_parse_end_not_found(view0, 0);
                lemma_chunk_scan_bounds(view0, parse_end(view0, 0));
                assert(self.view() =~= view0 + data@);
                lemma_wf_append_batch(view0, n, items@);
            }
        }
        match self.stream.flush() {
            Ok(_) => Ok(()),
            Err(e) => Err(e),
        }
    }
}

impl<F: FileTrait> Database<F> {
    /// The entry stored under `uid`: on a well-formed file the UIDs are
    /// dense, so this is the `uid`-th chunk.
    pub fn get_by_uid(&mut self, uid: u32) -> (r: Result<DBEntry<u32>, DBError>)
        requires
            old(self).wf(),
        ensures
            final(self).wf(),
            final(self).file_infallible() == old(self).file_infallible(),
            old(self).file_infallible() && wf_file(old(self).view()) ==> {
                let cs = chunks_from(old(self).view(), 0);
                &&& final(self).view() == old(self).view()
                &&& final(self).synced()
                &&& (uid < cs.len() ==> (r matches Ok(en) && en.uid == uid && en.item as int
                    == chunk_item_val(cs[uid as int])))
                &&& (uid >= cs.len() ==> (r matches Err(e) && e is EntryNotFound))
            },
    {
        let ghost view0 = self.view();
        let ghost well = old(self).file_infallible() && wf_file(view0);
        let ghost cs = chunks_from(view0, 0);
        match self.stream.seek_from_start(0) {
            Ok(_) => {},
            Err(e) => {
                return Err(e);
            },
        }
        let db_serializer = DBSerializer::new();
        let ghost mut i: int = 0;
        loop
            invariant
                self.wf(),
                self.file_infallible() == old(self).file_infallible(),
                self.view() == view0,
                view0 == old(self).view(),
                cs == chunks_from(view0, 0),
                well == (old(self).file_infallible() && wf_file(view0)),
                0 <= self.stream.pos() <= view0.len(),
                well ==> 0 <= i <= cs.len() && chunks_from(view0, self.stream.pos()) == cs.skip(i)
                    && i <= uid as int,
            decreases view0.len() - self.stream.pos(),
        {
            let ghost p = self.stream.pos();
            match self.stream.iter_chunk() {
                Err(DBError::InvalidData) => {
                    proof {
                        if well {
                            assert(chunks_from(view0, p) =~= Seq::<Seq<u8>>::empty());
                            assert(cs.skip(i) =~= Seq::<Seq<u8>>::empty());
                            assert(i == cs.len());
                        }
                    }
                    match self.stream.flush() {
                        Ok(_) => {},
                        Err(e) => {
                            return Err(e);
                        },
                    }
                    return Err(DBError::EntryNotFound);
                },
                Err(e) => {
                    // A host failure: surface it, never a wrong answer.
                    proof {
                        if well {
                            assert(false);
                        }
                    }
                    return Err(e);
                },
                Ok(chunk) => {
                    proof {
                        lemma_chunk_scan_bounds(view0, p);
                        if well {
                            assert(cs.skip(i)[0] == chunk@);
                            assert(cs[i] == chunk@);
                            assert(cs.skip(i).drop_first() =~= cs.skip(i + 1));
                            assert(chunk@.subrange(0, 4) == spec_le32(i as u32));
                            lemma_le32_roundtrip(i as u32);
                        }
                    }
                    match db_serializer.deserialize(&chunk) {
                        Ok(entry) => {
                            if entry.uid == uid {
                                proof {
                                    if well {
                                        assert(i == uid as int);
                                    }
                                }
                                match self.stream.flush() {
                                    Ok(_) => {},
                                    Err(e) => {
                                        return Err(e);
                                    },
                                }
                                return Ok(entry);
                            }
                            proof {
                                if well {
                                    assert(i != uid as int);
                                }
                            }
                        },
                        Err(_) => {
                            proof {
                                if well {
                                    assert(false);
                                }
                            }
                        },
                    }
                    proof {
                        if well {
                            i = i + 1;
                        }
                    }
                },
            }
        }
    }

    /// Whether any stored entry equals `item`.
    pub fn contains(&mut self, item: &u32) -> (r: Result<bool, DBError>)
        requires
            old(self).wf(),
        ensures
            final(self).wf(),
            final(self).file_infallible() == old(self).file_infallible(),
            old(self).file_infallible() && wf_file(old(self).view()) ==> {
                let cs = chunks_from(old(self).view(), 0);
                &&& final(self).view() == old(self).view()
                &&& final(self).synced()
                &&& (r matches Ok(b) && b == exists|i: int|
                    0 <= i < cs.len() && chunk_item_val(#[trigger] cs[i]) == *item as int)
            },
    {
        let ghost view0 = self.view();
        let ghost well = old(self).file_infallible() && wf_file(view0);
        let ghost cs = chunks_from(view0, 0);
        match self.stream.seek_from_start(0) {
            Ok(_) => {},
            Err(e) => {
                return Err(e);
            },
        }
        let db_serializer = DBSerializer::new();
        let ghost mut i: int = 0;
        loop
            invariant
                self.wf(),
                self.file_infallible() == old(self).file_infallible(),
                self.view() == view0,
                view0 == old(self).view(),
                cs == chunks_from(view0, 0),
                well == (old(self).file_infallible() && wf_file(view0)),
                0 <= self.stream.pos() <= view0.len(),
                well ==> 0 <= i <= cs.len() && chunks_from(view0, self.stream.pos()) == cs.skip(i) && (
                forall|j: int| 0 <= j < i ==> chunk_item_val(#[trigger] cs[j]) != *item as int),
            decreases view0.len() - self.stream.pos(),
        {
            let ghost p = self.stream.pos();
            match self.stream.iter_chunk() {
                Err(DBError::InvalidData) => {
                    proof {
                        if well {
                            assert(chunks_from(view0, p) =~= Seq::<Seq<u8>>::empty());
                            assert(cs.skip(i) =~= Seq::<Seq<u8>>::empty());
                            assert(i == cs.len());
                        }
                    }
                    match self.stream.flush() {
                        Ok(_) => {},
                        Err(e) => {
                            return Err(e);
                        },
                    }
                    return Ok(false);
                },
                Err(e) => {
                    // A host failure: surface it, never a wrong answer.
                    proof {
                        if well {
                            assert(false);
                        }
                    }
                    return Err(e);
                },
                Ok(chunk) => {
                    proof {
                        lemma_chunk_scan_bounds(view0, p);
                        if well {
                            assert(cs.skip(i)[0] == chunk@);
                            assert(cs[i] == chunk@);
                            assert(cs.skip(i).drop_first() =~= cs.skip(i + 1));
                        }
                    }
                    match db_serializer.deserialize(&chunk) {
                        Ok(entry) => {
                            if entry.item == *item {
                                proof {
                                    if well {
                                        assert(chunk_item_val(cs[i]) == *item as int);
                                    }
                                }
                                match self.stream.flush() {
                                    Ok(_) => {},
                                    Err(e) => {
                                        return Err(e);
                                    },
                                }
                                return Ok(true);
                            }
                        },
                        Err(_) => {
                            proof {
                                if well {
                                    assert(false);
                                }
                            }
                        },
                    }
                    proof {
                        if well {
                            i = i + 1;
                        }
                    }
                },
            }
        }
    }
}

impl<F: FileTrait> Database<F> {
    /// Remove the entry stored under `uid`: every later entry is shifted
    /// left over it with its UID renumbered down by one, and the file is
    /// truncated. The surviving UIDs stay dense.
    pub fn remove_by_uid(&mut self, uid: u32) -> (r: Result<(), DBError>)
        requires
            old(self).wf(),
        ensures
            final(self).wf(),
            final(self).file_infallible() == old(self).file_infallible(),
            old(self).file_infallible() && wf_file(old(self).view()) ==> {
                let cs = chunks_from(old(self).view(), 0);
                &&& (uid < cs.len() ==> r is Ok && final(self).view() == concat_chunks(
                    cs.take(uid as int),
                ) + concat_chunks(shift_chunks(cs.skip(uid + 1), uid as int))
                    && final(self).synced() && wf_file(final(self).view()) && chunks_from(
                    final(self).view(),
                    0,
                ) == cs.take(uid as int) + shift_chunks(cs.skip(uid + 1), uid as int)
                    && chunks_from(final(self).view(), 0).len() == cs.len() - 1)
                &&& (uid >= cs.len() ==> (r matches Err(e) && e is EntryNotFound)
                    && final(self).view() == old(self).view())
            },
    {
        let ghost view0 = self.view();
        let ghost well = old(self).file_infallible() && wf_file(view0);
        let ghost cs = chunks_from(view0, 0);
        match self.stream.seek_from_start(0) {
            Ok(_) => {},
            Err(e) => {
                return Err(e);
            },
        }
        proof {
            if well {
                lemma_concat_prefix(view0, 0, 0);
            }
        }
        let mut i: u32 = 0;
        while i < uid
            invariant
                i <= uid,
                self.wf(),
                self.file_infallible() == old(self).file_infallible(),
                self.view() == view0,
                view0 == old(self).view(),
                cs == chunks_from(view0, 0),
                well == (old(self).file_infallible() && wf_file(view0)),
                0 <= self.stream.pos() <= view0.len(),
                well ==> i <= cs.len() && chunks_from(view0, self.stream.pos()) == cs.skip(
                    i as int,
                ) && self.stream.pos() == concat_chunks(cs.take(i as int)).len(),
            decreases uid - i,
        {
            let ghost p = self.stream.pos();
            match self.stream.iter_chunk() {
                Err(DBError::InvalidData) => {
                    proof {
                        if well {
                            assert(chunks_from(view0, p) =~= Seq::<Seq<u8>>::empty());
                            assert(cs.skip(i as int) =~= Seq::<Seq<u8>>::empty());
                            assert(i as int == cs.len());
                        }
                    }
                    match self.stream.flush() {
                        Ok(_) => {},
                        Err(e) => {
                            return Err(e);
                        },
                    }
                    return Err(DBError::EntryNotFound);
                },
                Err(e) => {
                    // A host failure: surface it, never a wrong answer.
                    proof {
                        if well {
                            assert(false);
                        }
                    }
                    return Err(e);
                },
                Ok(chunk) => {
                    proof {
                        lemma_chunk_scan_bounds(view0, p);
                        if well {
                            assert(cs.skip(i as int)[0] == chunk@);
                            assert(cs[i as int] == chunk@);
                            assert(cs.skip(i as int).drop_first() =~= cs.skip(i + 1));
                            assert(cs.take(i + 1) =~= cs.take(i as int).push(cs[i as int]));
                            crate::layout::lemma_concat_chunks_push(
                                cs.take(i as int),
                                cs[i as int],
                            );
                        }
                    }
                    i = i + 1;
                },
            }
        }
        let ghost p = self.stream.pos();
        proof {
            if well {
                if (uid as int) < cs.len() {
                    assert(cs.skip(uid as int).len() > 0);
                    assert(chunk_scan(view0, p).1);
                    assert(cs.skip(uid as int)[0] == view0.subrange(p, chunk_scan(view0, p).0));
                    assert(cs[uid as int] == view0.subrange(p, chunk_scan(view0, p).0));
                    lemma_chunk_scan_bounds(view0, p);
                    assert(cs[uid as int].subrange(0, 4) == spec_le32(uid));
                    assert(view0.subrange(p, p + 4) =~= cs[uid as int].subrange(0, 4));
                    lemma_le32_roundtrip(uid);
                    assert(le_val(view0.subrange(p, p + 4)) == uid);
                    assert(cs.skip(uid as int).drop_first() =~= cs.skip(uid + 1));
                    assert(chunks_from(view0, p) == seq![
                        view0.subrange(p, chunk_scan(view0, p).0),
                    ] + chunks_from(view0, chunk_scan(view0, p).0));
                    assert(chunks_from(view0, chunk_scan(view0, p).0) =~= cs.skip(
                        uid as int,
                    ).drop_first());
                    assert(chunks_from(view0, chunk_scan(view0, p).0) == cs.skip(uid + 1));
                    assert(uid + cs.skip(uid + 1).len() <= u32::MAX);
                    lemma_concat_prefix(view0, 0, uid as int);
                }
            }
        }
        match self.stream.remove_chunk() {
            Ok(_) => {},
            Err(DBError::InvalidData) => {
                proof {
                    if well {
                        assert(!chunk_scan(view0, p).1);
                        assert(chunks_from(view0, p) =~= Seq::<Seq<u8>>::empty());
                        assert(uid as int >= cs.len());
                    }
                }
                match self.stream.flush() {
                    Ok(_) => {},
                    Err(e2) => {
                        return Err(e2);
                    },
                }
                return Err(DBError::EntryNotFound);
            },
            Err(e) => {
                // A host failure: surface it, never a wrong answer.
                proof {
                    if well {
                        assert(false);
                    }
                }
                return Err(e);
            },
        }
        proof {
            if well {
                assert((uid as int) < cs.len());
                assert(view0.subrange(0, p) == concat_chunks(cs.take(uid as int)));
                crate::layout::lemma_remove_preserves(view0, uid as int);
            }
        }
        match self.stream.flush() {
            Ok(_) => Ok(()),
            Err(e) => Err(e),
        }
    }
}

impl<F: FileTrait> Database<F> {
    /// The first entry whose projection under `value` equals `query`,
    /// scanning in UID order. `EntryNotFound` only after a full scan on
    /// which every stored value projected to something else.
    pub fn query<V: Fn(&u32) -> u32>(&mut self, value: V, query: u32) -> (r: Result<
        DBEntry<u32>,
        DBError,
    >)
        requires
            old(self).wf(),
            forall|x: &u32| value.requires((x,)),
        ensures
            final(self).wf(),
            final(self).file_infallible() == old(self).file_infallible(),
            old(self).file_infallible() && wf_file(old(self).view()) ==> {
                let cs = chunks_from(old(self).view(), 0);
                &&& final(self).view() == old(self).view()
                &&& final(self).synced()
                &&& match r {
                    Ok(en) => exists|i: int|
                        {
                            &&& 0 <= i < cs.len()
                            &&& en.uid as int == i
                            &&& en.item == chunk_item_u32(#[trigger] cs[i])
                            &&& call_ensures(value, (&en.item,), query)
                            &&& forall|j: int|
                                0 <= j < i ==> #[trigger] projects_away(
                                    value,
                                    chunk_item_u32(cs[j]),
                                    query,
                                )
                        },
                    Err(e) => e is EntryNotFound && forall|j: int|
                        0 <= j < cs.len() ==> #[trigger] projects_away(
                            value,
                            chunk_item_u32(cs[j]),
                            query,
                        ),
                }
            },
    {
        let ghost view0 = self.view();
        let ghost well = old(self).file_infallible() && wf_file(view0);
        let ghost cs = chunks_from(view0, 0);
        match self.stream.seek_from_start(0) {
            Ok(_) => {},
            Err(e) => {
                return Err(e);
            },
        }
        let db_serializer = DBSerializer::new();
        let ghost mut i: int = 0;
        loop
            invariant
                self.wf(),
                self.file_infallible() == old(self).file_infallible(),
                self.view() == view0,
                view0 == old(self).view(),
                cs == chunks_from(view0, 0),
                well == (old(self).file_infallible() && wf_file(view0)),
                forall|x: &u32| value.requires((x,)),
                0 <= self.stream.pos() <= view0.len(),
                well ==> 0 <= i <= cs.len() && chunks_from(view0, self.stream.pos()) == cs.skip(
                    i,
                ) && (forall|j: int|
                    0 <= j < i ==> #[trigger] projects_away(value, chunk_item_u32(cs[j]), query)),
            decreases view0.len() - self.stream.pos(),
        {
            let ghost p = self.stream.pos();
            match self.stream.iter_chunk() {
                Err(DBError::InvalidData) => {
                    proof {
                        if well {
                            assert(chunks_from(view0, p) =~= Seq::<Seq<u8>>::empty());
                            assert(cs.skip(i) =~= Seq::<Seq<u8>>::empty());
                            assert(i == cs.len());
                        }
                    }
                    match self.stream.flush() {
                        Ok(_) => {},
                        Err(e) => {
                            return Err(e);
                        },
                    }
                    return Err(DBError::EntryNotFound);
                },
                Err(e) => {
                    // A host failure: surface it, never a wrong answer.
                    proof {
                        if well {
                            assert(false);
                        }
                    }
                    return Err(e);
                },
                Ok(chunk) => {
                    proof {
                        lemma_chunk_scan_bounds(view0, p);
                        if well {
                            assert(cs.skip(i)[0] == chunk@);
                            assert(cs[i] == chunk@);
                            assert(cs.skip(i).drop_first() =~= cs.skip(i + 1));
                            assert(chunk@.subrange(0, 4) == spec_le32(i as u32));
                            lemma_le32_roundtrip(i as u32);
                        }
                    }
                    match db_serializer.deserialize(&chunk) {
                        Ok(entry) => {
                            proof {
                                if well {
                                    assert(0 <= chunk_item_val(cs[i]) < 0x100000000);
                                    assert(entry.item == chunk_item_u32(cs[i]));
                                }
                            }
                            let projected: u32 = value(&entry.item);
                            if projected == query {
                                match self.stream.flush() {
                                    Ok(_) => {},
                                    Err(e) => {
                                        return Err(e);
                                    },
                                }
                                return Ok(entry);
                            }
                            proof {
                                if well {
                                    assert(call_ensures(
                                        value,
                                        (&chunk_item_u32(cs[i]),),
                                        projected,
                                    ));
                                    assert(projects_away(value, chunk_item_u32(cs[i]), query));
                                }
                            }
                        },
                        Err(_) => {
                            proof {
                                if well {
                                    assert(false);
                                }
                            }
                        },
                    }
                    proof {
                        if well {
                            i = i + 1;
                        }
                    }
                },
            }
        }
    }

    /// An iterator over every entry, from the start of the file. Consumes
    /// the store; the iterator hands the file back when done.
    pub fn get_iterator(self) -> (r: Result<DBIterator<F, CACHE_SIZE>, DBError>)
        requires
            self.wf(),
        ensures
            self.file_infallible() ==> r is Ok,
            match r {
                Ok(it) => {
                    &&& it.wf()
                    &&& it.view() == self.view()
                    &&& it.pos() == 0
                    &&& it.file_infallible() == self.file_infallible()
                },
                Err(e) => e is FailedToRetrieveIterator,
            },
    {
        let file: F = match self.into_file() {
            Ok(f) => f,
            Err(_) => {
                return Err(DBError::FailedToRetrieveIterator);
            },
        };
        Ok(DBIterator::from_file(file))
    }

    /// An iterator over every raw chunk, from the start of the file.
    pub fn get_chunk_iterator(self) -> (r: Result<DBChunkIterator<F, CACHE_SIZE>, DBError>)
        requires
            self.wf(),
        ensures
            self.file_infallible() ==> r is Ok,
            match r {
                Ok(it) => {
                    &&& it.wf()
                    &&& it.view() == self.view()
                    &&& it.pos() == 0
                    &&& it.file_infallible() == self.file_infallible()
                },
                Err(e) => e is FailedToRetrieveIterator,
            },
    {
        let file: F = match self.into_file() {
            Ok(f) => f,
            Err(_) => {
                return Err(DBError::FailedToRetrieveIterator);
            },
        };
        Ok(DBChunkIterator::from_file(file))
    }
}

/// The file as it stands after inserting `items` one at a time, each with
/// the next dense UID.
pub open spec fn spec_insert_each(s: Seq<u8>, items: Seq<u32>) -> Seq<u8>
    decreases items.len(),
{
    if items.len() == 0 {
        s
    } else {
        spec_insert_each(
            s + spec_chunk(chunks_from(s, 0).len() as u32, spec_le32(items[0])),
            items.drop_first(),
        )
    }
}

/// Batch equivalence: inserting a batch leaves the file byte-identical to
/// inserting the same values one at a time, in the same order.
#[verifier::rlimit(100)]
pub proof fn lemma_batch_equivalence(s: Seq<u8>, items: Seq<u32>)
    requires
        wf_file(s),
        chunks_from(s, 0).len() + items.len() <= eoe_val(),
        forall|i: int| 0 <= i < items.len() ==> #[trigger] items[i] as int != eoe_val(),
    ensures
        s + spec_chunks_batch(chunks_from(s, 0).len() as int, items) == spec_insert_each(s, items),
    decreases items.len(),
{
    let n = chunks_from(s, 0).len() as int;
    if items.len() == 0 {
        assert(s + spec_chunks_batch(n, items) =~= s);
    } else {
        let c = spec_chunk(n as u32, spec_le32(items[0]));
        lemma_chunk_ok_u32(n as u32, items[0]);
        lemma_wf_append(s, n as u32, spec_le32(items[0]));
        assert(forall|i: int|
            0 <= i < items.drop_first().len() ==> #[trigger] items.drop_first()[i] as int
                != eoe_val()) by {
            assert(forall|i: int|
                0 <= i < items.drop_first().len() ==> items.drop_first()[i] == items[i + 1]);
        }
        lemma_batch_equivalence(s + c, items.drop_first());
        assert(s + spec_chunks_batch(n, items) =~= (s + c) + spec_chunks_batch(
            n + 1,
            items.drop_first(),
        ));
    }
}

/// A batch of `m` one-block values occupies exactly `12 * m` bytes.
proof fn lemma_batch_len(uid0: int, items: Seq<u32>)
    ensures
        spec_chunks_batch(uid0, items).len() == 12 * items.len(),
    decreases items.len(),
{
    if items.len() > 0 {
        lemma_pad_props(spec_le32(items[0]));
        lemma_batch_len(uid0 + 1, items.drop_first());
    }
}

/// Appending a batch with consecutive fresh UIDs preserves well-formedness
/// and appends exactly those chunks to the parse.
proof fn lemma_wf_append_batch(s: Seq<u8>, n: int, items: Seq<u32>)
    requires
        wf_file(s),
        n == chunks_from(s, 0).len(),
        n + items.len() <= eoe_val(),
        forall|i: int| 0 <= i < items.len() ==> #[trigger] items[i] as int != eoe_val(),
    ensures
        wf_file(s + spec_chunks_batch(n, items)),
        chunks_from(s + spec_chunks_batch(n, items), 0).len() == n + items.len(),
    decreases items.len(),
{
    if items.len() == 0 {
        assert(s + spec_chunks_batch(n, items) =~= s);
    } else {
        let c = spec_chunk(n as u32, spec_le32(items[0]));
        lemma_chunk_ok_u32(n as u32, items[0]);
        lemma_wf_append(s, n as u32, spec_le32(items[0]));
        assert(forall|i: int|
            0 <= i < items.drop_first().len() ==> #[trigger] items.drop_first()[i] as int
                != eoe_val()) by {
            assert(forall|i: int|
                0 <= i < items.drop_first().len() ==> items.drop_first()[i] == items[i + 1]);
        }
        lemma_wf_append_batch(s + c, n + 1, items.drop_first());
        assert((s + c) + spec_chunks_batch(n + 1, items.drop_first()) =~= s + spec_chunks_batch(
            n,
            items,
        ));
    }
}

} // verus!
