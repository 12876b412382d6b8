//! The UID codec and the entry codec.
//!
//! A UID is a `u32` stored little-endian in one block. An entry value is
//! encoded by the host's binary codec (bincode, in its fixed-int
//! little-endian configuration), split into blocks with the last one
//! right-zero-padded, and framed between a UID block and the end-of-entry
//! sentinel. Framing rejects any value or UID whose block image would equal
//! the sentinel: that is what keeps the sentinel unique on disk.

use vstd::prelude::*;

use crate::error::DBError;
use crate::layout::{
    block_at, chunk_decodable, chunk_ok, chunk_scan, chunks_from, le_val, lemma_pad_props,
    spec_chunk, spec_chunks_batch, spec_entries, spec_eoe, spec_le32, spec_pad,
};
use crate::structures::DBEntry;
use crate::BLOCK_SIZE;

verus! {

/// Relies on `bincode::encode_to_vec` with `bincode::config::legacy()`
/// (fixed-int, little-endian): a `u32` encodes to exactly its four
/// little-endian bytes, and encoding a `u32` to a vector cannot fail.
#[verifier::external_body]
fn bincode_encode_u32(value: u32) -> (r: Vec<u8>)
    ensures
        r@ == spec_le32(value),
{
    let config = bincode::config::legacy();
    match bincode::encode_to_vec(value, config) {
        Ok(bytes) => bytes,
        Err(_) => Vec::new(),
    }
}

/// Relies on `bincode::decode_from_slice` with `bincode::config::legacy()`
/// (fixed-int, little-endian): a `u32` is read as exactly the first four
/// bytes of the input, little-endian; fewer than four bytes is an error.
#[verifier::external_body]
fn bincode_decode_u32(buffer: &Vec<u8>) -> (r: Result<u32, ()>)
    ensures
        match r {
            Ok(u) => buffer@.len() >= 4 && u as int == le_val(buffer@.subrange(0, 4)),
            Err(e) => buffer@.len() < 4,
        },
{
    let config = bincode::config::legacy();
    match bincode::decode_from_slice::<u32, _>(buffer.as_slice(), config) {
        Ok((value, _)) => Ok(value),
        Err(_) => Err(()),
    }
}

/// Encodes and decodes UID blocks.
pub struct UIDSerializer;

impl UIDSerializer {
    pub fn new() -> (r: Self) {
        UIDSerializer {  }
    }

    /// The UID as one little-endian, zero-padded block.
    pub fn serialize_uid(&self, uid: u32) -> (r: Vec<u8>)
        ensures
            r@ == spec_le32(uid),
            r@.len() == BLOCK_SIZE,
    {
        let mut block: Vec<u8> = Vec::new();
        block.push((uid % 0x100) as u8);
        block.push(((uid / 0x100) % 0x100) as u8);
        block.push(((uid / 0x10000) % 0x100) as u8);
        block.push(((uid / 0x1000000) % 0x100) as u8);
        assert(block@ =~= spec_le32(uid));
        block
    }

    /// The UID stored in the first block of `buffer`; fails only when the
    /// buffer is shorter than a UID.
    pub fn deserialize_uid(&self, buffer: &Vec<u8>) -> (r: Result<u32, DBError>)
        ensures
            buffer@.len() >= 4 ==> (r matches Ok(u) && u as int == le_val(buffer@.subrange(0, 4))),
            buffer@.len() < 4 ==> (r matches Err(e) && e is UIDDeserializeError),
    {
        match bincode_decode_u32(buffer) {
            Ok(uid) => Ok(uid),
            Err(_) => Err(DBError::UIDDeserializeError),
        }
    }
}

/// Whether one block equals the end-of-entry sentinel.
pub fn is_eoe_block(block: &Vec<u8>) -> (r: bool)
    requires
        block@.len() == BLOCK_SIZE,
    ensures
        r == (block@ == spec_eoe()),
{
    let r = block[0] == 0xff && block[1] == 0xfe && block[2] == 0xfd && block[3] == 0xfc;
    proof {
        if r {
            assert(block@ =~= spec_eoe());
        }
    }
    r
}

/// Serializes values to chunks and decodes chunks back.
pub struct DBSerializer {
    pub uid_serializer: UIDSerializer,
}

impl DBSerializer {
    pub fn new() -> (r: Self) {
        let uid_serializer: UIDSerializer = UIDSerializer::new();
        DBSerializer { uid_serializer }
    }

    /// Encode one value with the host codec.
    fn bincode_serialize(&self, item: &u32) -> (r: Result<Vec<u8>, DBError>)
        ensures
            r matches Ok(b) && b@ == spec_le32(*item),
    {
        Ok(bincode_encode_u32(*item))
    }

    /// Decode one value from an unpadded payload region; trailing zero
    /// padding past the encoded value is ignored.
    fn bincode_deserialize(&self, bytes: &Vec<u8>) -> (r: Result<u32, DBError>)
        ensures
            bytes@.len() >= 4 ==> (r matches Ok(v) && v as int == le_val(bytes@.subrange(0, 4))),
            bytes@.len() < 4 ==> (r matches Err(e) && e is DeserializeError),
    {
        match bincode_decode_u32(bytes) {
            Ok(v) => Ok(v),
            Err(_) => Err(DBError::DeserializeError),
        }
    }

    /// Frame an already-encoded payload as one chunk: UID block, payload
    /// blocks with the last right-zero-padded, sentinel block. Rejects a
    /// UID or payload whose block image would equal the sentinel.
    #[verifier::rlimit(60)]
    pub fn frame_chunk(&self, uid: u32, payload: &Vec<u8>) -> (r: Result<Vec<u8>, DBError>)
        requires
            payload@.len() + 12 <= usize::MAX,
        ensures
            match r {
                Ok(c) => c@ == spec_chunk(uid, payload@) && chunk_ok(uid, payload@),
                Err(e) => e is SerializeError && !chunk_ok(uid, payload@),
            },
    {
        let mut buffer: Vec<u8> = self.uid_serializer.serialize_uid(uid);
        let mut i: usize = 0;
        while i < payload.len()
            invariant
                i <= payload@.len(),
                payload@.len() + 12 <= usize::MAX,
                buffer@ == spec_le32(uid) + payload@.take(i as int),
            decreases payload@.len() - i,
        {
            buffer.push(payload[i]);
            assert(buffer@ =~= spec_le32(uid) + payload@.take(i + 1));
            i = i + 1;
        }
        assert(payload@.take(payload@.len() as int) =~= payload@);
        while buffer.len() % BLOCK_SIZE != 0
            invariant
                spec_le32(uid).len() + spec_pad(payload@).len() >= buffer@.len() >= spec_le32(
                    uid,
                ).len() + payload@.len(),
                buffer@ == (spec_le32(uid) + spec_pad(payload@)).subrange(0, buffer@.len() as int),
            decreases (spec_le32(uid) + spec_pad(payload@)).len() - buffer@.len(),
        {
            proof {
                lemma_pad_props(payload@);
            }
            buffer.push(0u8);
            assert(buffer@ =~= (spec_le32(uid) + spec_pad(payload@)).subrange(
                0,
                buffer@.len() as int,
            ));
        }
        proof {
            lemma_pad_props(payload@);
            assert(buffer@ =~= spec_le32(uid) + spec_pad(payload@));
        }
        let ghost body = spec_le32(uid) + spec_pad(payload@);
        // No block of the UID or payload region may equal the sentinel.
        let total: usize = buffer.len();
        let mut at: usize = 0;
        let mut k: usize = 0;
        while at < total
            invariant
                body == spec_le32(uid) + spec_pad(payload@),
                buffer@ == body,
                total == body.len(),
                body.len() % 4 == 0,
                at == 4 * k,
                at <= total,
                forall|j: int| 0 <= j < k ==> #[trigger] block_at(body, j) != spec_eoe(),
            decreases total - at,
        {
            let mut block: Vec<u8> = Vec::new();
            block.push(buffer[at]);
            block.push(buffer[at + 1]);
            block.push(buffer[at + 2]);
            block.push(buffer[at + 3]);
            assert(block@ =~= block_at(body, k as int));
            if is_eoe_block(&block) {
                proof {
                    vstd::arithmetic::div_mod::lemma_fundamental_div_mod(body.len() as int, 4);
                    assert(k < body.len() / 4);
                    assert(block_at(spec_le32(uid) + spec_pad(payload@), k as int)
                        == spec_eoe());
                    assert(!chunk_ok(uid, payload@));
                }
                return Err(DBError::SerializeError);
            }
            at = at + 4;
            k = k + 1;
        }
        assert(chunk_ok(uid, payload@)) by {
            assert(forall|j: int|
                0 <= j < body.len() / 4 ==> #[trigger] block_at(body, j) != spec_eoe());
        }
        buffer.push(0xff);
        buffer.push(0xfe);
        buffer.push(0xfd);
        buffer.push(0xfc);
        assert(buffer@ =~= spec_chunk(uid, payload@));
        Ok(buffer)
    }

    /// One chunk for `item` under `uid`: encode, then frame.
    pub fn serialize(&self, uid: u32, item: &u32) -> (r: Result<Vec<u8>, DBError>)
        ensures
            match r {
                Ok(c) => c@ == spec_chunk(uid, spec_le32(*item)) && chunk_ok(uid, spec_le32(*item)),
                Err(e) => e is SerializeError && !chunk_ok(uid, spec_le32(*item)),
            },
    {
        let bytes: Vec<u8> = match self.bincode_serialize(item) {
            Ok(b) => b,
            Err(e) => {
                return Err(DBError::SerializeError);
            },
        };
        self.frame_chunk(uid, &bytes)
    }

    /// One chunk per value, consecutive UIDs starting at `uid`, laid end to
    /// end in the order given.
    pub fn serialize_items(&self, uid: u32, items: &Vec<u32>) -> (r: Result<Vec<u8>, DBError>)
        requires
            uid + items@.len() <= u32::MAX + 1,
            items@.len() * 12 + 12 <= usize::MAX,
        ensures
            match r {
                Ok(b) => {
                    &&& b@ == spec_chunks_batch(uid as int, items@)
                    &&& forall|i: int|
                        0 <= i < items@.len() ==> chunk_ok(
                            ((uid + i) % 0x100000000) as u32,
                            spec_le32(#[trigger] items@[i]),
                        )
                },
                Err(e) => {
                    &&& e is SerializeError
                    &&& exists|i: int|
                        0 <= i < items@.len() && !chunk_ok(
                            ((uid + i) % 0x100000000) as u32,
                            spec_le32(#[trigger] items@[i]),
                        )
                },
            },
    {
        let mut buffer: Vec<u8> = Vec::new();
        let mut next: u32 = uid;
        let mut i: usize = 0;
        while i < items.len()
            invariant
                i <= items@.len(),
                uid + items@.len() <= u32::MAX + 1,
                items@.len() * 12 + 12 <= usize::MAX,
                next as int == uid + i || (i == items@.len() && next as int == uid + i - 1),
                i < items@.len() ==> next as int == uid + i,
                buffer@ == spec_chunks_batch(uid as int, items@.take(i as int)),
                buffer@.len() == 12 * i,
                forall|j: int|
                    0 <= j < i ==> chunk_ok(
                        ((uid + j) % 0x100000000) as u32,
                        spec_le32(#[trigger] items@[j]),
                    ),
            decreases items@.len() - i,
        {
            let item: u32 = items[i];
            let chunk: Vec<u8> = match self.serialize(next, &item) {
                Ok(c) => c,
                Err(e) => {
                    return Err(e);
                },
            };
            proof {
                lemma_pad_props(spec_le32(item));
                assert(chunk@.len() == 12);
            }
            let mut j: usize = 0;
            let ghost buffer0 = buffer@;
            while j < chunk.len()
                invariant
                    j <= chunk@.len(),
                    buffer0.len() + chunk@.len() <= usize::MAX,
                    buffer@ == buffer0 + chunk@.take(j as int),
                decreases chunk@.len() - j,
            {
                buffer.push(chunk[j]);
                assert(buffer@ =~= buffer0 + chunk@.take(j + 1));
                j = j + 1;
            }
            assert(chunk@.take(chunk@.len() as int) =~= chunk@);
            proof {
                lemma_batch_take_step(uid as int, items@, i as int);
            }
            if i + 1 < items.len() {
                next = next + 1;
            }
            i = i + 1;
        }
        assert(items@.take(items@.len() as int) =~= items@);
        Ok(buffer)
    }

    /// The payload region of a chunk: every byte between the UID block and
    /// the trailing sentinel, right-zero padding still in place. The
    /// inverse of framing, for host codecs whose values take any length.
    pub fn unframe_chunk(&self, chunk: &Vec<u8>) -> (r: Result<Vec<u8>, DBError>)
        ensures
            match r {
                Ok(p) => chunk@.len() >= 8 && p@ == chunk@.subrange(4, chunk@.len() - 4),
                Err(e) => chunk@.len() < 8 && e is DeserializeError,
            },
    {
        if chunk.len() < 8 {
            return Err(DBError::DeserializeError);
        }
        let end: usize = chunk.len() - BLOCK_SIZE;
        let mut payload: Vec<u8> = Vec::new();
        assert(payload@ =~= chunk@.subrange(4, 4));
        let mut i: usize = BLOCK_SIZE;
        while i < end
            invariant
                4 <= i <= end,
                end == chunk@.len() - 4,
                8 <= chunk@.len(),
                payload@ == chunk@.subrange(4, i as int),
            decreases end - i,
        {
            payload.push(chunk[i]);
            assert(payload@ =~= chunk@.subrange(4, i + 1));
            i = i + 1;
        }
        Ok(payload)
    }

    /// The `(uid, value)` entry a chunk holds: the UID from block zero, the
    /// value decoded from the payload region between the UID block and the
    /// trailing sentinel.
    pub fn deserialize(&self, buffer: &Vec<u8>) -> (r: Result<DBEntry<u32>, DBError>)
        ensures
            match r {
                Ok(en) => {
                    &&& buffer@.len() >= 12
                    &&& en.uid as int == le_val(buffer@.subrange(0, 4))
                    &&& en.item as int == le_val(buffer@.subrange(4, 8))
                },
                Err(e) => {
                    (buffer@.len() < 4 && e is UIDDeserializeError) || (4 <= buffer@.len() < 12
                        && e is DeserializeError)
                },
            },
    {
        let uid: u32 = match self.uid_serializer.deserialize_uid(buffer) {
            Ok(u) => u,
            Err(e) => {
                return Err(e);
            },
        };
        if buffer.len() < 12 {
            return Err(DBError::DeserializeError);
        }
        // The payload region: everything between the UID block and the
        // trailing sentinel.
        let mut payload: Vec<u8> = Vec::new();
        let end: usize = buffer.len() - BLOCK_SIZE;
        let mut i: usize = BLOCK_SIZE;
        while i < end
            invariant
                4 <= i <= end,
                end == buffer@.len() - 4,
                12 <= buffer@.len(),
                payload@ == buffer@.subrange(4, i as int),
            decreases end - i,
        {
            payload.push(buffer[i]);
            assert(payload@ =~= buffer@.subrange(4, i + 1));
            i = i + 1;
        }
        let item: u32 = match self.bincode_deserialize(&payload) {
            Ok(v) => v,
            Err(e) => {
                return Err(e);
            },
        };
        proof {
            assert(payload@.subrange(0, 4) =~= buffer@.subrange(4, 8));
        }
        Ok(DBEntry::new(uid, item))
    }

    /// Decode every chunk in `buffer`, in order, passing over chunks too
    /// short to decode; trailing bytes that form no terminated chunk are
    /// ignored.
    pub fn deserialize_items(&self, buffer: &Vec<u8>) -> (r: Result<Vec<DBEntry<u32>>, DBError>)
        ensures
            r matches Ok(v) && entries_correspond(v@, spec_entries(chunks_from(buffer@, 0))),
    {
        let ghost total = spec_entries(chunks_from(buffer@, 0));
        let mut items: Vec<DBEntry<u32>> = Vec::new();
        let mut p: usize = 0;
        let ghost mut done: Seq<(u32, u32)> = Seq::<(u32, u32)>::empty();
        loop
            invariant
                p <= buffer@.len(),
                total == spec_entries(chunks_from(buffer@, 0)),
                total == done + spec_entries(chunks_from(buffer@, p as int)),
                entries_correspond(items@, done),
            decreases buffer@.len() - p,
        {
            let e: usize = match find_chunk_end(buffer, p) {
                Some(e) => e,
                None => {
                    proof {
                        assert(chunks_from(buffer@, p as int) =~= Seq::<Seq<u8>>::empty());
                        assert(total =~= done);
                    }
                    return Ok(items);
                },
            };
            let mut chunk: Vec<u8> = Vec::new();
            let mut i: usize = p;
            while i < e
                invariant
                    p <= i <= e <= buffer@.len(),
                    chunk@ == buffer@.subrange(p as int, i as int),
                decreases e - i,
            {
                chunk.push(buffer[i]);
                assert(chunk@ =~= buffer@.subrange(p as int, i + 1));
                i = i + 1;
            }
            let ghost c = buffer@.subrange(p as int, e as int);
            proof {
                assert(chunks_from(buffer@, p as int) == seq![c] + chunks_from(
                    buffer@,
                    e as int,
                ));
                assert(chunks_from(buffer@, p as int).drop_first() =~= chunks_from(
                    buffer@,
                    e as int,
                ));
                assert(chunks_from(buffer@, p as int)[0] == c);
            }
            match self.deserialize(&chunk) {
                Ok(entry) => {
                    proof {
                        lemma_le_val_bounds(c.subrange(0, 4));
                        lemma_le_val_bounds(c.subrange(4, 8));
                        done = done + seq![
                            (
                                (le_val(c.subrange(0, 4)) % 0x100000000) as u32,
                                (le_val(c.subrange(4, 8)) % 0x100000000) as u32,
                            ),
                        ];
                    }
                    items.push(entry);
                    proof {
                        assert(total =~= done + spec_entries(chunks_from(buffer@, e as int)));
                    }
                },
                Err(_) => {
                    proof {
                        assert(!chunk_decodable(c));
                        assert(total =~= done + spec_entries(chunks_from(buffer@, e as int)));
                    }
                },
            }
            p = e;
        }
    }
}

/// A four-byte little-endian value is a `u32`.
proof fn lemma_le_val_bounds(s: Seq<u8>)
    requires
        s.len() == 4,
    ensures
        0 <= le_val(s) < 0x100000000,
{
}

/// The decoded entries line up with the `(uid, value)` pairs a parse of
/// the same bytes yields.
pub open spec fn entries_correspond(v: Seq<DBEntry<u32>>, ps: Seq<(u32, u32)>) -> bool {
    &&& v.len() == ps.len()
    &&& forall|i: int|
        0 <= i < v.len() ==> (#[trigger] v[i]).uid == ps[i].0 && v[i].item == ps[i].1
}

/// Where the chunk at `from` ends, scanning block by block for the
/// sentinel.
fn find_chunk_end(buffer: &Vec<u8>, from: usize) -> (r: Option<usize>)
    requires
        from <= buffer@.len(),
    ensures
        match r {
            Some(e) => chunk_scan(buffer@, from as int) == (e as int, true) && from < e
                <= buffer@.len(),
            None => !chunk_scan(buffer@, from as int).1,
        },
{
    let mut q: usize = from;
    loop
        invariant
            from <= q <= buffer@.len(),
            chunk_scan(buffer@, from as int) == chunk_scan(buffer@, q as int),
        decreases buffer@.len() - q,
    {
        if buffer.len() - q < BLOCK_SIZE {
            return None;
        }
        let mut block: Vec<u8> = Vec::new();
        block.push(buffer[q]);
        block.push(buffer[q + 1]);
        block.push(buffer[q + 2]);
        block.push(buffer[q + 3]);
        assert(block@ =~= buffer@.subrange(q as int, q + 4));
        if is_eoe_block(&block) {
            return Some(q + BLOCK_SIZE);
        }
        q = q + BLOCK_SIZE;
    }
}

proof fn lemma_batch_take_step(uid0: int, items: Seq<u32>, i: int)
    requires
        0 <= i < items.len(),
    ensures
        spec_chunks_batch(uid0, items.take(i + 1)) == spec_chunks_batch(uid0, items.take(i))
            + spec_chunk(((uid0 + i) % 0x100000000) as u32, spec_le32(items[i])),
    decreases i,
{
    if i == 0 {
        assert(items.take(1).drop_first() =~= Seq::<u32>::empty());
        reveal_with_fuel(spec_chunks_batch, 3);
        assert(items.take(0) =~= Seq::<u32>::empty());
        assert(items.take(1)[0] == items[0]);
        assert(spec_chunks_batch(uid0, items.take(1)) =~= spec_chunks_batch(uid0, items.take(0))
            + spec_chunk((uid0 % 0x100000000) as u32, spec_le32(items[0])));
    } else {
        assert(items.take(i + 1).drop_first() =~= items.drop_first().take(i));
        assert(items.take(i).drop_first() =~= items.drop_first().take(i - 1));
        lemma_batch_take_step(uid0 + 1, items.drop_first(), i - 1);
        assert(items.drop_first().take(i)[i - 1] == items[i]);
        assert(items.take(i + 1)[0] == items[0]);
        assert(items.take(i)[0] == items[0]);
        assert(spec_chunks_batch(uid0, items.take(i + 1)) =~= spec_chunks_batch(
            uid0,
            items.take(i),
        ) + spec_chunk(((uid0 + i) % 0x100000000) as u32, spec_le32(items[i])));
    }
}

} // verus!
