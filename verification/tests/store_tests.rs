use micro_db::db::Database;
use micro_db::error::DBError;
use micro_db::memfile::MemFile;
use micro_db::serializer::{DBSerializer, UIDSerializer};
use micro_db::stream::{DBFileStream, DBStreamCache};
use micro_db::structures::{DBChunkIterator, DBIterator};

const EOE: [u8; 4] = [0xff, 0xfe, 0xfd, 0xfc];

fn empty_db() -> Database<MemFile> {
    Database::new(MemFile::new())
}

fn db_bytes(db: Database<MemFile>) -> Vec<u8> {
    db.into_file().unwrap().into_bytes()
}

#[test]
fn empty_file() {
    let mut db = empty_db();
    assert!(matches!(db.get_by_uid(0), Err(DBError::EntryNotFound)));
    let mut stream: DBFileStream<MemFile, 2048> = DBFileStream::new(MemFile::new());
    assert!(stream.last_chunk().is_none());
    assert_eq!(db_bytes(db).len(), 0);
}

#[test]
fn single_insert_bytes() {
    let mut db = empty_db();
    db.add_entry(&42u32).unwrap();
    let entry = db.get_by_uid(0).unwrap();
    assert_eq!(entry.uid, 0);
    assert_eq!(entry.item, 42);
    let bytes = db_bytes(db);
    assert_eq!(bytes.len(), 12);
    assert_eq!(
        bytes,
        vec![0x00, 0x00, 0x00, 0x00, 0x2a, 0x00, 0x00, 0x00, 0xff, 0xfe, 0xfd, 0xfc]
    );
}

#[test]
fn batch_insert() {
    let mut db = empty_db();
    db.add_entries(&vec![10u32, 20, 30]).unwrap();
    for (uid, val) in [(0u32, 10u32), (1, 20), (2, 30)] {
        let entry = db.get_by_uid(uid).unwrap();
        assert_eq!(entry.uid, uid);
        assert_eq!(entry.item, val);
    }
    assert_eq!(db_bytes(db).len(), 36);
}

#[test]
fn batch_equals_single_inserts() {
    let mut batch = empty_db();
    batch.add_entries(&vec![10u32, 20, 30]).unwrap();

    let mut single = empty_db();
    single.add_entry(&10u32).unwrap();
    single.add_entry(&20u32).unwrap();
    single.add_entry(&30u32).unwrap();

    assert_eq!(db_bytes(batch), db_bytes(single));
}

#[test]
fn delete_middle() {
    let mut db = empty_db();
    db.add_entries(&vec![10u32, 20, 30]).unwrap();
    db.remove_by_uid(1).unwrap();
    let e0 = db.get_by_uid(0).unwrap();
    assert_eq!((e0.uid, e0.item), (0, 10));
    let e1 = db.get_by_uid(1).unwrap();
    assert_eq!((e1.uid, e1.item), (1, 30));
    assert!(matches!(db.get_by_uid(2), Err(DBError::EntryNotFound)));
    assert_eq!(db_bytes(db).len(), 24);
}

#[test]
fn delete_last() {
    let mut db = empty_db();
    db.add_entries(&vec![10u32, 20, 30]).unwrap();
    db.remove_by_uid(2).unwrap();
    let mut it = db.get_iterator().unwrap();
    let a = it.next().unwrap().unwrap();
    assert_eq!((a.uid, a.item), (0, 10));
    let b = it.next().unwrap().unwrap();
    assert_eq!((b.uid, b.item), (1, 20));
    assert!(it.next().is_none());
    assert_eq!(it.into_file().unwrap().into_bytes().len(), 24);
}

#[test]
fn delete_first_renumbers() {
    let mut db = empty_db();
    db.add_entries(&vec![7u32, 8, 9]).unwrap();
    db.remove_by_uid(0).unwrap();
    let e0 = db.get_by_uid(0).unwrap();
    assert_eq!((e0.uid, e0.item), (0, 8));
    let e1 = db.get_by_uid(1).unwrap();
    assert_eq!((e1.uid, e1.item), (1, 9));
    assert_eq!(db_bytes(db).len(), 24);
}

#[test]
fn remove_missing_uid() {
    let mut db = empty_db();
    assert!(matches!(db.remove_by_uid(0), Err(DBError::EntryNotFound)));
    db.add_entry(&5u32).unwrap();
    assert!(matches!(db.remove_by_uid(3), Err(DBError::EntryNotFound)));
}

#[test]
fn scan_skips_corrupted_tail() {
    // Hand-build three chunks, then append one trailing zero block that
    // forms no terminated chunk.
    let mut db = empty_db();
    db.add_entries(&vec![10u32, 20, 30]).unwrap();
    let mut bytes = db_bytes(db);
    bytes.extend_from_slice(&[0, 0, 0, 0]);
    let mut it: DBIterator<MemFile, 2048> = DBIterator::from_file(MemFile::from_bytes(bytes));
    let mut seen = Vec::new();
    while let Some(entry) = it.next() {
        seen.push(entry.unwrap());
    }
    assert_eq!(seen.len(), 3);
    assert_eq!((seen[0].uid, seen[0].item), (0, 10));
    assert_eq!((seen[2].uid, seen[2].item), (2, 30));
}

#[test]
fn file_stays_block_aligned() {
    let mut db = empty_db();
    let mut len_ok = |db: Database<MemFile>| -> Database<MemFile> {
        let bytes = db.into_file().unwrap().into_bytes();
        assert_eq!(bytes.len() % 4, 0);
        Database::new(MemFile::from_bytes(bytes))
    };
    db.add_entry(&1u32).unwrap();
    db = len_ok(db);
    db.add_entries(&vec![2u32, 3]).unwrap();
    db = len_ok(db);
    db.remove_by_uid(1).unwrap();
    db = len_ok(db);
    drop(db);
}

#[test]
fn uid_density_after_inserts_and_deletes() {
    let mut db = empty_db();
    db.add_entries(&vec![100u32, 200, 300, 400, 500]).unwrap();
    db.remove_by_uid(1).unwrap();
    db.remove_by_uid(2).unwrap();
    // Survivors: 100, 300, 500 under dense UIDs 0, 1, 2.
    let mut it = db.get_iterator().unwrap();
    let mut uids = Vec::new();
    let mut vals = Vec::new();
    while let Some(entry) = it.next() {
        let entry = entry.unwrap();
        uids.push(entry.uid);
        vals.push(entry.item);
    }
    assert_eq!(uids, vec![0, 1, 2]);
    assert_eq!(vals, vec![100, 300, 500]);
}

#[test]
fn roundtrip_many_values() {
    let values = vec![0u32, 1, 41, 0xffff, 0xdeadbeef, u32::MAX];
    let mut db = empty_db();
    for v in &values {
        db.add_entry(v).unwrap();
    }
    for (i, v) in values.iter().enumerate() {
        let entry = db.get_by_uid(i as u32).unwrap();
        assert_eq!(entry.item, *v);
    }
}

#[test]
fn sentinel_value_rejected() {
    // The one u32 whose encoding equals the end-of-entry sentinel must be
    // rejected, or a scan would stop inside the chunk.
    let mut db = empty_db();
    assert!(matches!(db.add_entry(&0xfcfdfeffu32), Err(DBError::SerializeError)));
    assert_eq!(db_bytes(db).len(), 0);

    let mut db2 = empty_db();
    assert!(matches!(
        db2.add_entries(&vec![1u32, 0xfcfdfeff, 3]),
        Err(DBError::SerializeError)
    ));
}

#[test]
fn contains_and_query() {
    let mut db = empty_db();
    db.add_entries(&vec![11u32, 22, 33]).unwrap();
    assert_eq!(db.contains(&22u32).unwrap(), true);
    assert_eq!(db.contains(&44u32).unwrap(), false);
    let entry = db.query(|x: &u32| *x + 1, 23).unwrap();
    assert_eq!((entry.uid, entry.item), (1, 22));
    assert!(matches!(db.query(|x: &u32| *x, 99), Err(DBError::EntryNotFound)));
}

#[test]
fn uid_codec_roundtrip() {
    let ser = UIDSerializer::new();
    let block = ser.serialize_uid(0x01020304);
    assert_eq!(block, vec![0x04, 0x03, 0x02, 0x01]);
    assert_eq!(ser.deserialize_uid(&block).unwrap(), 0x01020304);
    assert_eq!(ser.deserialize_uid(&vec![1, 0, 0, 0]).unwrap(), 1);
    assert!(matches!(
        ser.deserialize_uid(&vec![1, 2, 3]),
        Err(DBError::UIDDeserializeError)
    ));
}

#[test]
fn frame_chunk_pads_payload() {
    let ser = DBSerializer::new();
    // A five-byte payload occupies two blocks, the second right-zero-padded.
    let chunk = ser.frame_chunk(3, &vec![9, 8, 7, 6, 5]).unwrap();
    assert_eq!(
        chunk,
        vec![3, 0, 0, 0, 9, 8, 7, 6, 5, 0, 0, 0, 0xff, 0xfe, 0xfd, 0xfc]
    );
}

#[test]
fn frame_chunk_rejects_sentinel_block() {
    let ser = DBSerializer::new();
    // A payload whose second block equals the sentinel is rejected.
    let bad = vec![1, 2, 3, 4, 0xff, 0xfe, 0xfd, 0xfc];
    assert!(matches!(ser.frame_chunk(0, &bad), Err(DBError::SerializeError)));
    // The same bytes split across a block boundary are fine.
    let ok = vec![1, 0xff, 0xfe, 0xfd, 0xfc, 2, 3, 4];
    assert!(ser.frame_chunk(0, &ok).is_ok());
}

#[test]
fn serializer_roundtrip() {
    let ser = DBSerializer::new();
    let chunk = ser.serialize(5, &1234).unwrap();
    assert_eq!(chunk.len(), 12);
    let entry = ser.deserialize(&chunk).unwrap();
    assert_eq!((entry.uid, entry.item), (5, 1234));
    assert!(matches!(ser.deserialize(&vec![1, 2]), Err(DBError::UIDDeserializeError)));
    assert!(matches!(
        ser.deserialize(&vec![1, 2, 3, 4, 5, 6, 7, 8]),
        Err(DBError::DeserializeError)
    ));
}

#[test]
fn serialize_items_concatenates() {
    let ser = DBSerializer::new();
    let batch = ser.serialize_items(0, &vec![10u32, 20]).unwrap();
    let mut expect = ser.serialize(0, &10).unwrap();
    expect.extend(ser.serialize(1, &20).unwrap());
    assert_eq!(batch, expect);
}

#[test]
fn deserialize_items_reads_all() {
    let ser = DBSerializer::new();
    let mut buffer = ser.serialize(0, &7).unwrap();
    buffer.extend(ser.serialize(1, &8).unwrap());
    // Trailing bytes with no sentinel are ignored.
    buffer.extend_from_slice(&[1, 2, 3, 4]);
    let items = ser.deserialize_items(&buffer).unwrap();
    assert_eq!(items.len(), 2);
    assert_eq!((items[0].uid, items[0].item), (0, 7));
    assert_eq!((items[1].uid, items[1].item), (1, 8));
}

#[test]
fn chunk_iterator_yields_raw_chunks() {
    let mut db = empty_db();
    db.add_entries(&vec![1u32, 2]).unwrap();
    let mut it = db.get_chunk_iterator().unwrap();
    let c0 = it.next().unwrap().unwrap();
    assert_eq!(c0, vec![0, 0, 0, 0, 1, 0, 0, 0, 0xff, 0xfe, 0xfd, 0xfc]);
    let c1 = it.next().unwrap().unwrap();
    assert_eq!(&c1[..4], &[1, 0, 0, 0]);
    assert_eq!(&c1[8..], &EOE);
    assert!(it.next().is_none());
}

#[test]
fn last_chunk_returns_tail() {
    let mut db = empty_db();
    db.add_entries(&vec![5u32, 6, 7]).unwrap();
    let bytes = db_bytes(db);
    let mut stream: DBFileStream<MemFile, 2048> = DBFileStream::new(MemFile::from_bytes(bytes));
    let last = stream.last_chunk().unwrap();
    assert_eq!(&last[..4], &[2, 0, 0, 0]);
    assert_eq!(&last[4..8], &[7, 0, 0, 0]);
    assert_eq!(&last[8..], &EOE);
}

#[test]
fn cache_transparency_small_window() {
    // A window much smaller than the data forces flushes and reloads; the
    // visible bytes must equal the uncached model.
    let mut cache: DBStreamCache<MemFile, 8> = DBStreamCache::new(MemFile::new());
    cache.write(&vec![1, 2, 3, 4]).unwrap();
    cache.write(&vec![5, 6, 7, 8]).unwrap();
    cache.write(&vec![9, 10, 11, 12]).unwrap();
    cache.seek_from_start(4).unwrap();
    assert_eq!(cache.read().unwrap(), vec![5, 6, 7, 8]);
    cache.seek_from_start(0).unwrap();
    cache.write(&vec![100, 101]).unwrap();
    cache.flush_cache_buffer().unwrap();
    let bytes = cache.into_file().into_bytes();
    assert_eq!(bytes, vec![100, 101, 3, 4, 5, 6, 7, 8, 9, 10, 11, 12]);
}

#[test]
fn cache_bypass_write_larger_than_window() {
    let mut cache: DBStreamCache<MemFile, 8> = DBStreamCache::new(MemFile::new());
    let big: Vec<u8> = (0..32u8).collect();
    cache.write(&big).unwrap();
    cache.seek_from_start(0).unwrap();
    assert_eq!(cache.read().unwrap(), vec![0, 1, 2, 3]);
    cache.flush_cache_buffer().unwrap();
    assert_eq!(cache.into_file().into_bytes(), big);
}

#[test]
fn cache_set_len_truncates_and_extends() {
    let mut cache: DBStreamCache<MemFile, 8> = DBStreamCache::new(MemFile::new());
    cache.write(&vec![1, 2, 3, 4, 5, 6, 7, 8]).unwrap();
    cache.set_len(4).unwrap();
    cache.flush_cache_buffer().unwrap();
    let bytes = cache.into_file().into_bytes();
    assert_eq!(bytes, vec![1, 2, 3, 4]);

    let mut cache2: DBStreamCache<MemFile, 8> = DBStreamCache::new(MemFile::from_bytes(bytes));
    cache2.set_len(6).unwrap();
    cache2.flush_cache_buffer().unwrap();
    assert_eq!(cache2.into_file().into_bytes(), vec![1, 2, 3, 4, 0, 0]);
}

#[test]
fn read_at_end_of_stream() {
    let mut cache: DBStreamCache<MemFile, 8> = DBStreamCache::new(MemFile::from_bytes(vec![
        1, 2, 3, 4, 5, 6,
    ]));
    assert_eq!(cache.read().unwrap(), vec![1, 2, 3, 4]);
    // Fewer than a block remains.
    assert!(matches!(cache.read(), Err(DBError::EndOfFileStream)));
}

#[test]
fn small_window_database_end_to_end() {
    // Run the whole store over a window smaller than one chunk.
    let mut stream: DBFileStream<MemFile, 4> = DBFileStream::new(MemFile::new());
    let ser = DBSerializer::new();
    let mut data = ser.serialize(0, &11).unwrap();
    data.extend(ser.serialize(1, &22).unwrap());
    data.extend(ser.serialize(2, &33).unwrap());
    stream.append_end(&data).unwrap();
    // Remove the middle chunk with the tiny window.
    stream.seek_from_start(0).unwrap();
    stream.iter_chunk().unwrap();
    stream.remove_chunk().unwrap();
    stream.flush().unwrap();
    let bytes = stream.into_file().into_bytes();
    assert_eq!(bytes.len(), 24);
    let mut it: DBIterator<MemFile, 4> = DBIterator::from_file(MemFile::from_bytes(bytes));
    let a = it.next().unwrap().unwrap();
    let b = it.next().unwrap().unwrap();
    assert_eq!((a.uid, a.item), (0, 11));
    assert_eq!((b.uid, b.item), (1, 33));
    assert!(it.next().is_none());
}

#[test]
fn truncated_chunk_is_invalid_data() {
    // One block that never reaches a sentinel: collecting the chunk fails.
    let mut stream: DBFileStream<MemFile, 2048> =
        DBFileStream::new(MemFile::from_bytes(vec![1, 2, 3, 4]));
    assert!(matches!(stream.iter_chunk(), Err(DBError::InvalidData)));
}

#[test]
fn chunk_bounds_reports_and_restores_position() {
    let ser = DBSerializer::new();
    let mut bytes = ser.serialize(0, &1).unwrap();
    bytes.extend(ser.serialize(1, &2).unwrap());
    let mut stream: DBFileStream<MemFile, 2048> =
        DBFileStream::new(MemFile::from_bytes(bytes));
    let (st, en) = stream.get_chunk_bounds().unwrap();
    assert_eq!((st, en), (0, 12));
    // The position is back at the start: the same chunk reads next.
    let chunk = stream.iter_chunk().unwrap();
    assert_eq!(&chunk[..4], &[0, 0, 0, 0]);
    let (st2, en2) = stream.get_chunk_bounds().unwrap();
    assert_eq!((st2, en2), (12, 24));
}

#[test]
fn uid_block_of_sentinel_value_decodes() {
    let ser = UIDSerializer::new();
    let eoe_block = vec![0xff, 0xfe, 0xfd, 0xfc];
    assert_eq!(ser.deserialize_uid(&eoe_block).unwrap(), 0xfcfdfeff);
}

#[test]
fn empty_batch_changes_nothing() {
    let mut db = empty_db();
    db.add_entry(&9u32).unwrap();
    db.add_entries(&Vec::new()).unwrap();
    let bytes = db_bytes(db);
    assert_eq!(bytes.len(), 12);
}

#[test]
fn frame_and_unframe_roundtrip() {
    let ser = DBSerializer::new();
    let payload = vec![1u8, 2, 3, 4, 5, 6, 7];
    let chunk = ser.frame_chunk(9, &payload).unwrap();
    let padded = ser.unframe_chunk(&chunk).unwrap();
    assert_eq!(padded.len(), 8);
    assert_eq!(&padded[..7], &payload[..]);
    assert_eq!(padded[7], 0);
    // Through the file: append the chunk and read it back whole.
    let mut stream: DBFileStream<MemFile, 2048> = DBFileStream::new(MemFile::new());
    stream.append_end(&chunk).unwrap();
    stream.seek_from_start(0).unwrap();
    let back = stream.iter_chunk().unwrap();
    assert_eq!(back, chunk);
    assert_eq!(ser.unframe_chunk(&back).unwrap(), padded);
}

#[test]
fn unframe_rejects_short_chunk() {
    let ser = DBSerializer::new();
    assert!(matches!(
        ser.unframe_chunk(&vec![1, 2, 3, 4]),
        Err(DBError::DeserializeError)
    ));
}
