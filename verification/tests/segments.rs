use aikoql::cache::BlockCache;
use aikoql::format::FormatError;
use aikoql::identity::ReplicaId;
use aikoql::segment::open::SegmentReader;
use aikoql::segment::write::{segment_path, SegmentWriter};
use aikoql::segment::{SegmentEntry, FLAG_DELETE, FLAG_PUT};
use aikoql::stats::Stats;

fn put(key: &str, value: &str, seq: u64, rid: u64) -> SegmentEntry {
    SegmentEntry {
        key: key.as_bytes().to_vec(),
        value: value.as_bytes().to_vec(),
        seq,
        flags: FLAG_PUT,
        replica_id: ReplicaId(rid),
    }
}

fn del(key: &str, seq: u64) -> SegmentEntry {
    SegmentEntry {
        key: key.as_bytes().to_vec(),
        value: vec![],
        seq,
        flags: FLAG_DELETE,
        replica_id: ReplicaId(0),
    }
}

fn write(mut w: SegmentWriter, es: Vec<SegmentEntry>) -> SegmentReader {
    for e in es {
        w.push(e);
    }
    let p = w.publish_with_anchors().unwrap();
    assert_eq!(p.file_size, p.bytes.len() as u64);
    SegmentReader::open(p.bytes).unwrap()
}

fn sample() -> Vec<SegmentEntry> {
    let mut es = Vec::new();
    for i in 0..50u64 {
        es.push(put(&format!("key{i:03}"), &format!("v{i}"), 100 + i, 0));
    }
    es.push(put("key010", "old", 3, 0));
    es.push(del("key020", 500));
    es
}

#[test]
fn every_version_of_the_format_reads_back() {
    for w in [SegmentWriter::new(64), SegmentWriter::new_v2(64), SegmentWriter::new_v3(64)] {
        let s = write(w, sample());
        assert_eq!(s.entry_count(), 52);
        assert!(s.block_count() > 1);
        assert_eq!(s.key_min(), b"key000");
        assert_eq!(s.key_max(), b"key049");
        assert_eq!((s.seq_lo(), s.seq_hi()), (3, 500));
        assert_eq!(s.get(b"key010").unwrap().unwrap().value, b"v10");
        assert_eq!(s.get(b"key020").unwrap().unwrap().flags, FLAG_DELETE);
        assert!(s.get(b"nokey").unwrap().is_none());
        assert!(s.bloom_may_contain(b"key033"));
        let v = s.versions(b"key010").unwrap();
        assert_eq!(v.iter().map(|e| e.seq).collect::<Vec<_>>(), vec![110, 3]);
        let r = s.scan(b"key010", b"key012").unwrap();
        assert_eq!(r.len(), 3);
        let keys: Vec<&[u8]> = vec![b"key049", b"zzz", b"key000", b"key049"];
        let many = s.get_many(&keys).unwrap();
        assert_eq!(many[0].as_ref().unwrap().value, b"v49");
        assert!(many[1].is_none());
        assert_eq!(many[2].as_ref().unwrap().value, b"v0");
        assert_eq!(many[3].as_ref().unwrap().value, b"v49");
    }
}

#[test]
fn cursors_give_entries_in_order() {
    let s = write(SegmentWriter::new_v2(64), sample());
    let mut it = s.iter();
    let mut n = 0;
    let mut last: Vec<u8> = vec![];
    while let Some(e) = it.next() {
        let e = e.unwrap();
        assert!(last <= e.key);
        last = e.key;
        n += 1;
    }
    assert_eq!(n, 52);
    let mut scan = s.scan_iter(b"key009", Some(b"key012"));
    let mut got = vec![];
    while let Some(e) = scan.next() {
        got.push(String::from_utf8(e.unwrap().key).unwrap());
    }
    assert_eq!(got, vec!["key009", "key010", "key011"]);
}

#[test]
fn replicas_find_their_own_rows() {
    let es = vec![put("k", "a", 1, 7), put("k", "b", 2, 8), put("k", "c", 3, 7), put("z", "d", 4, 8)];
    let mut w = SegmentWriter::new_v3(1024);
    for e in es {
        w.push(e);
    }
    let p = w.publish_with_anchors().unwrap();
    let anchors = p.anchors.clone();
    let s = SegmentReader::open(p.bytes).unwrap();
    assert_eq!(s.get_by_rid(b"k", ReplicaId(7)).unwrap().unwrap().value, b"c");
    assert_eq!(s.get_by_rid(b"k", ReplicaId(8)).unwrap().unwrap().value, b"b");
    assert!(s.get_by_rid(b"k", ReplicaId(9)).unwrap().is_none());
    assert_eq!(anchors.len(), 2);
    for a in anchors {
        let e = s.entry_at(a.block_id, a.entry_offset).unwrap().unwrap();
        assert_eq!(e.replica_id, a.replica_id);
        assert_eq!(e.seq, a.seq);
    }
}

#[test]
fn misuse_is_refused() {
    let mut w = SegmentWriter::new_v2(0);
    w.push(put("k", "v", 1, 0));
    assert_eq!(w.publish().unwrap_err().to_text(), "invalid: target block size must be > 0");
    let mut w = SegmentWriter::new_v2(64);
    assert_eq!(w.publish().unwrap_err().to_text(), "invalid: cannot publish an empty segment");
    w.push(put("k", "v", 1, 0));
    w.push(put("k", "w", 1, 0));
    assert_eq!(w.publish().unwrap_err().to_text(), "invalid: duplicate (key, seq) pair");
}

#[test]
fn damage_is_refused() {
    let mut w = SegmentWriter::new_v2(64);
    for e in sample() {
        w.push(e);
    }
    let bytes = w.publish().unwrap().0;
    let mut bad = bytes.clone();
    bad[0] ^= 1;
    assert!(matches!(SegmentReader::open(bad), Err(FormatError::Corrupt(_))));
    let mut bad = bytes.clone();
    let n = bad.len();
    bad.truncate(n - 3);
    assert!(SegmentReader::open(bad).is_err());
    let s = SegmentReader::open(bytes.clone()).unwrap();
    let at = bytes
        .windows(6)
        .position(|w| w == b"key000")
        .unwrap();
    let mut bad = bytes;
    let payload = bad.len() / 3;
    assert!(payload > at);
    bad[payload] ^= 0xff;
    match SegmentReader::open(bad) {
        Err(e) => assert!(matches!(e, FormatError::Corrupt(_))),
        Ok(r) => {
            let mut failed = false;
            for i in 0..r.block_count() {
                failed = failed || r.block_entries(i as usize).is_err();
            }
            assert!(failed);
        }
    }
    assert!(s.get(b"key000").unwrap().is_some());
}

#[test]
fn segment_files_are_named_by_number() {
    assert_eq!(segment_path("/d", 12), "/d/SEGMENT-000012.seg");
}

#[test]
fn range_cursors_give_the_first_entry_of_each_key() {
    for w in [SegmentWriter::new(64), SegmentWriter::new_v2(64), SegmentWriter::new_v3(64)] {
        let s = write(w, sample());
        let mut scan = s.scan_iter(b"key010", Some(b"key021"));
        let mut got = vec![];
        while let Some(e) = scan.next() {
            let e = e.unwrap();
            assert_eq!(s.get(&e.key).unwrap(), Some(e.clone()));
            got.push(e);
        }
        assert_eq!(got.len(), 11);
        assert!(got.windows(2).all(|p| p[0].key < p[1].key));
        assert_eq!(got[0].value, b"v10");
        assert_eq!(got[10].flags, FLAG_DELETE);
        assert!(s.scan_iter(b"key030", Some(b"key030")).next().is_none());
        assert!(s.scan_iter(b"l", None).next().is_none());
    }
}

#[test]
fn cached_blocks_are_the_blocks_of_the_file() {
    let s = write(SegmentWriter::new_v2(64), sample());
    let other = write(SegmentWriter::new_v2(64), vec![put("z", "9", 1, 0)]);
    let mut cache = BlockCache::new(10_000);
    let mut stats = Stats::new();
    let (a, b) = (cache.reader_id(), cache.reader_id());
    let first = s.read_block(0, a, &mut cache, &mut stats).unwrap();
    let again = s.read_block(0, a, &mut cache, &mut stats).unwrap();
    let foreign = other.read_block(0, b, &mut cache, &mut stats).unwrap();
    assert_eq!(first, again);
    assert_ne!(first, foreign);
    assert_eq!(&first[..4], b"AKBL");
    let counted = stats.snapshot();
    assert_eq!((counted.block_cache_hits, counted.block_cache_misses), (1, 2));
    assert_eq!(counted.blocks_read, 2);
    assert_eq!(counted.bytes_read, (first.len() + foreign.len()) as u64);
    let mut none = BlockCache::new(0);
    for _ in 0..2 {
        assert_eq!(s.read_block(0, 0, &mut none, &mut stats).unwrap(), first);
    }
    // A cache without room is not asked.
    assert_eq!(none.stats().misses, 0);
    assert_eq!(stats.snapshot().blocks_read, 4);
    assert_eq!(stats.snapshot().block_cache_misses, 2);
}

#[test]
fn cached_reads_answer_like_plain_ones() {
    for w in [SegmentWriter::new(64), SegmentWriter::new_v2(64), SegmentWriter::new_v3(64)] {
        let s = write(w, sample());
        let mut cache = BlockCache::new(300);
        let mut stats = Stats::new();
        let id = cache.reader_id();
        for i in 0..60 {
            let key = format!("key{:03}", i * 7 % 60);
            let got = s.get_cached(key.as_bytes(), id, &mut cache, &mut stats).unwrap();
            assert_eq!(got, s.get(key.as_bytes()).unwrap());
            assert!(cache.stats().bytes <= 300);
        }
        assert!(cache.stats().evictions > 0);
        assert_eq!(stats.snapshot().blocks_read, cache.stats().misses);
    }
}

#[test]
fn damaged_blocks_never_enter_the_cache() {
    let mut w = SegmentWriter::new_v2(64);
    for e in sample() {
        w.push(e);
    }
    let mut bytes = w.publish_with_anchors().unwrap().bytes;
    let s = SegmentReader::open(bytes.clone()).unwrap();
    bytes[s.data[1].header + 30] ^= 1;
    let s = SegmentReader::open(bytes).unwrap();
    let mut cache = BlockCache::new(10_000);
    let mut stats = Stats::new();
    let id = cache.reader_id();
    for _ in 0..2 {
        assert_eq!(
            s.read_block(1, id, &mut cache, &mut stats).unwrap_err(),
            FormatError::Corrupt("data block 1 checksum mismatch".to_string())
        );
    }
    assert_eq!(cache.stats().bytes, 0);
    assert!(s.read_block(0, id, &mut cache, &mut stats).is_ok());
}
