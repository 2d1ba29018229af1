use aikoql::cache::BlockCache;
use aikoql::db::open::{fresh_current, fresh_manifest, recover, Files};
use aikoql::db::{Config, Db, Op};
use aikoql::identity::ReplicaId;
use aikoql::memtable::Memtable;
use aikoql::migration::{
    check_reopened, count_changes, decode_legacy_batch, fingerprint, next_step, verify_batch, Found,
    Step,
};
use std::sync::Arc;

fn block(n: usize, byte: u8) -> Arc<Vec<u8>> {
    Arc::new(vec![byte; n])
}

#[test]
fn cache_holds_the_most_recent_blocks() {
    let mut c = BlockCache::new(100);
    assert_eq!((c.reader_id(), c.reader_id()), (0, 1));
    c.insert(0, 1, block(40, 1));
    c.insert(0, 2, block(40, 2));
    assert_eq!(c.get(0, 1).unwrap()[0], 1);
    c.insert(0, 3, block(40, 3));
    assert!(c.get(0, 2).is_none());
    assert_eq!(c.get(0, 1).unwrap()[0], 1);
    assert_eq!(c.get(0, 3).unwrap()[0], 3);
    let s = c.stats();
    assert_eq!((s.hits, s.misses, s.evictions, s.bytes), (3, 1, 1, 80));
    c.insert(0, 9, block(101, 9));
    assert!(c.get(0, 9).is_none());
    c.insert(0, 1, block(50, 7));
    assert_eq!(c.get(0, 1).unwrap().len(), 50);
    assert_eq!(c.stats().bytes, 90);
    assert!(c.get(1, 1).is_none());
}

#[test]
fn memtable_keeps_versions_in_order() {
    let mut m = Memtable::new();
    assert!(m.is_empty());
    m.apply(b"b".to_vec(), 1, Some(b"1".to_vec()));
    m.apply(b"a".to_vec(), 2, Some(b"2".to_vec()));
    m.apply(b"b".to_vec(), 3, None);
    m.apply(b"b".to_vec(), 3, Some(b"3".to_vec()));
    assert!(!m.has_identity());
    m.apply_object(b"b".to_vec(), 4, Some(b"o".to_vec()), ReplicaId(5));
    assert!(m.has_identity());
    assert_eq!(m.get(b"b").unwrap().value, b"o");
    assert_eq!(m.get_by_rid(b"b", ReplicaId(0)).unwrap().value, b"3");
    assert!(m.get(b"zz").is_none());
    assert_eq!(m.bytes(), 9);
    let heads = m.prefix_heads(b"");
    assert_eq!(heads.len(), 2);
    assert_eq!(heads[0].0, b"a");
    assert_eq!(heads[1].1, Some(b"o".to_vec()));
    let seqs: Vec<u64> = m.into_entries().iter().map(|e| e.seq).collect();
    assert_eq!(seqs, vec![2, 4, 3, 1]);
}

fn legacy(puts: &[(&str, &str)], dels: &[&str]) -> Vec<u8> {
    let mut b = (puts.len() as u16).to_le_bytes().to_vec();
    for (k, v) in puts {
        b.extend((k.len() as u32).to_le_bytes());
        b.extend(k.as_bytes());
        b.extend((v.len() as u32).to_le_bytes());
        b.extend(v.as_bytes());
    }
    b.extend((dels.len() as u16).to_le_bytes());
    for k in dels {
        b.extend((k.len() as u32).to_le_bytes());
        b.extend(k.as_bytes());
    }
    b
}

#[test]
fn legacy_records_decode() {
    let ops = decode_legacy_batch(&legacy(&[("k", "v"), ("l", "")], &["m"])).unwrap();
    assert_eq!(
        ops,
        vec![
            Op::Put(b"k".to_vec(), b"v".to_vec()),
            Op::Put(b"l".to_vec(), vec![]),
            Op::Delete(b"m".to_vec()),
        ]
    );
    assert_eq!(count_changes(&ops), (2, 1));
    let mut cut = legacy(&[("k", "v")], &[]);
    cut.pop();
    assert_eq!(
        decode_legacy_batch(&cut).unwrap_err().to_text(),
        "corrupt: legacy batch payload truncated"
    );
    let mut long = legacy(&[("k", "v")], &[]);
    long.push(0);
    assert_eq!(
        decode_legacy_batch(&long).unwrap_err().to_text(),
        "corrupt: trailing bytes in legacy record"
    );
}

#[test]
fn migration_steps_follow_the_log() {
    let payload = legacy(&[("k", "v")], &[]);
    match next_step(Found::Complete { payload, end: 30 }, 0, false, true, false).unwrap() {
        Step::Apply { ops, end, drain } => {
            assert_eq!(ops.len(), 1);
            assert_eq!(end, 30);
            assert!(!drain);
        }
        _ => panic!("a whole record is applied"),
    }
    assert!(matches!(
        next_step(Found::TornTail, 5, false, true, false),
        Ok(Step::Read { drain: true })
    ));
    assert!(matches!(
        next_step(Found::TornTail, 0, false, false, false),
        Ok(Step::Read { drain: false })
    ));
    assert!(matches!(
        next_step(Found::TornTail, 5, true, true, false),
        Ok(Step::Done { torn: true })
    ));
    assert!(matches!(
        next_step(Found::TornTail, 5, true, false, false),
        Ok(Step::Done { torn: false })
    ));
    let damage = next_step(Found::TornTail, 5, true, true, true);
    assert_eq!(
        damage.err().unwrap().to_text(),
        "corrupt: truncated record followed by valid data"
    );
    let words = next_step(Found::Damaged("bad magic".to_string()), 0, false, true, false);
    assert_eq!(words.err().unwrap().to_text(), "corrupt: bad magic");
}

fn fresh() -> Db {
    let files = Files {
        checkpoint: None,
        orphan_placements: vec![],
        identity: vec![],
        replicas: vec![],
        placements: vec![],
        segments: vec![],
        wal: vec![],
    };
    let x = recover(&fresh_current(), fresh_manifest(), files).unwrap();
    Db::open(Config::new("/m".to_string()), x)
}

#[test]
fn migrated_batches_are_checked() {
    let mut db = fresh();
    let ops = vec![
        Op::Put(b"k".to_vec(), b"1".to_vec()),
        Op::Put(b"k".to_vec(), b"2".to_vec()),
        Op::Delete(b"d".to_vec()),
    ];
    let seq = db.write(&ops).unwrap();
    db.finish_write(seq, &ops, Ok(())).unwrap();
    assert!(verify_batch(&db, &ops).is_ok());
    let wrong = vec![Op::Put(b"k\xff".to_vec(), b"\x01\x02".to_vec())];
    assert_eq!(
        verify_batch(&db, &wrong).unwrap_err().to_text(),
        "corrupt: frame verification failed for key k\u{fffd}: expected Some([1, 2]), got None"
    );
    let rows = db.scan(b"").unwrap();
    let f = fingerprint(&rows);
    assert_eq!(f.0, 1);
    assert!(check_reopened(f, f).is_ok());
    assert_eq!(
        check_reopened((3, 1), (2, 1)).unwrap_err().to_text(),
        "corrupt: flush/reopen changed the migrated state (3 live keys -> 2)"
    );
    assert!(fingerprint(&vec![]) != f);
}
