use aikoql::compaction::{KeepAll, Retention, RetentionPolicy};
use aikoql::db::cached::ReadPath;
use aikoql::db::group::Group;
use aikoql::db::batch::{batch_bytes_of, batch_ops_of};
use aikoql::db::open::{
    fresh_current, fresh_manifest, orphan_segments, recover, Files, Recovered,
};
use aikoql::db::{manifest_path, Config, Db, DurabilityMode, Op};
use aikoql::engine::{store_error, WriteBatch};
use aikoql::format::{Current, FormatError, Manifest};
use aikoql::identity::directory::LogFile;
use aikoql::identity::{
    IdentityResolver, LocalIdentityDirectory, LocalReplicaDirectory, LocalTopology, LogicalId,
    NodeId, ObjectId, ReplicaDirectory, ReplicaId, ReplicaTopology,
};
use aikoql::placement::{LocalPlacementResolver, Placement, PlacementResolver};
use aikoql::stats::Stats;
use aikoql::checkpoint::DirectoryCheckpoint;
use aikoql::placement::{PlacementLog, PlacementRecord};
use aikoql::wal::{encode_frame, replay_frames};

fn nothing() -> Files {
    Files {
        checkpoint: None,
        orphan_placements: vec![],
        identity: vec![],
        replicas: vec![],
        placements: vec![],
        segments: vec![],
        wal: vec![],
    }
}

fn open_from(current: &Current, manifest: Manifest, files: Files) -> Db {
    let x: Recovered = recover(current, manifest, files).unwrap();
    assert!(x.has_room());
    let mut config = Config::new("/db".to_string());
    config.block_target = 64;
    config.memtable_bytes = 1000;
    Db::open(config, x)
}

fn fresh() -> Db {
    open_from(&fresh_current(), fresh_manifest(), nothing())
}

fn commit(db: &mut Db, ops: Vec<Op>) -> u64 {
    let seq = db.write(&ops).unwrap();
    db.finish_write(seq, &ops, Ok(())).unwrap()
}

fn put(db: &mut Db, k: &str, v: &str) -> u64 {
    commit(db, Db::put(k.as_bytes(), v.as_bytes()))
}

fn get(db: &Db, k: &str) -> Option<String> {
    db.get(k.as_bytes()).unwrap().map(|v| String::from_utf8(v).unwrap())
}

fn scan(db: &Db, p: &str) -> Vec<(String, String)> {
    db.scan(p.as_bytes())
        .unwrap()
        .into_iter()
        .map(|(k, v)| (String::from_utf8(k).unwrap(), String::from_utf8(v).unwrap()))
        .collect()
}

/// What a flush leaves on disk.
struct Disk {
    manifest: Vec<u8>,
    current: Vec<u8>,
    segments: Vec<(u64, Vec<u8>)>,
    identity: Vec<LogFile>,
    replicas: Vec<LogFile>,
    placements: Vec<LogFile>,
}

fn flush(db: &mut Db, disk: &mut Disk) -> bool {
    let p = match db.flush().unwrap() {
        None => return false,
        Some(p) => p,
    };
    for c in &p.chunks {
        disk.segments.push((c.segment_id, c.reader.bytes.clone()));
    }
    if let Some(l) = &p.identity {
        disk.identity.push(LogFile { generation: l.generation, bytes: Ok(l.encode()) });
    }
    if let Some(l) = &p.replicas {
        disk.replicas.push(LogFile { generation: l.generation, bytes: Ok(l.encode()) });
    }
    if let Some(l) = &p.placements {
        disk.placements.push(LogFile { generation: l.generation, bytes: Ok(l.encode()) });
    }
    disk.manifest = p.manifest.encode();
    disk.current = p.current.encode();
    db.finish_flush(p.chunks);
    true
}

fn compact<P: RetentionPolicy>(db: &mut Db, disk: &mut Disk, policy: &P) -> usize {
    let p = db.compact_with(policy).unwrap().unwrap();
    disk.segments.clear();
    for c in &p.chunks {
        disk.segments.push((c.segment_id, c.reader.bytes.clone()));
    }
    if let Some(l) = &p.placements {
        disk.placements.push(LogFile { generation: l.generation, bytes: Ok(l.encode()) });
    }
    disk.manifest = p.manifest.encode();
    disk.current = p.current.encode();
    let archives = p.archives.len();
    db.finish_compact(p).unwrap();
    archives
}

fn empty_disk() -> Disk {
    Disk {
        manifest: vec![],
        current: vec![],
        segments: vec![],
        identity: vec![],
        replicas: vec![],
        placements: vec![],
    }
}

fn reopen(disk: &Disk, wal: Vec<u8>) -> Db {
    let copy = |v: &Vec<LogFile>| {
        v.iter()
            .map(|f| LogFile { generation: f.generation, bytes: f.bytes.clone() })
            .collect::<Vec<_>>()
    };
    let manifest = Manifest::decode(&disk.manifest).unwrap();
    let segments = manifest
        .segments
        .iter()
        .map(|r| {
            Ok(disk.segments.iter().find(|(id, _)| *id == r.segment_id).unwrap().1.clone())
        })
        .collect();
    let files = Files {
        checkpoint: None,
        orphan_placements: vec![],
        identity: copy(&disk.identity),
        replicas: copy(&disk.replicas),
        placements: copy(&disk.placements),
        segments,
        wal,
    };
    open_from(&Current::decode(&disk.current).unwrap(), manifest, files)
}

#[test]
fn defaults_are_durable() {
    let c = Config::new("/x".to_string());
    assert_eq!(c.durability, DurabilityMode::Sync);
    assert_eq!(DurabilityMode::default(), DurabilityMode::Sync);
    assert_eq!(c.memtable_bytes, 64 * 1024 * 1024);
    assert_eq!(c.block_target, 16 * 1024);
    assert_eq!(c.l0_compact_trigger, 4);
    assert_eq!(manifest_path("/x", 3), "/x/MANIFEST-000003");
}

#[test]
fn writes_read_back() {
    let mut db = fresh();
    assert_eq!(put(&mut db, "k", "1"), 1);
    assert_eq!(put(&mut db, "k", "2"), 2);
    assert_eq!(get(&db, "k").as_deref(), Some("2"));
    assert_eq!(get(&db, "other"), None);
    commit(&mut db, Db::delete(b"k"));
    assert_eq!(get(&db, "k"), None);
    assert_eq!(
        db.write(&vec![]).unwrap_err().to_text(),
        "invalid: empty write batch"
    );
    let ops = Db::put(b"x", b"y");
    let seq = db.write(&ops).unwrap();
    let failed = db.finish_write(seq, &ops, Err(FormatError::Io("disk".to_string())));
    assert_eq!(failed.unwrap_err().to_text(), "io: disk");
    assert_eq!(get(&db, "x"), None);
}

#[test]
fn newer_layers_win() {
    let mut db = fresh();
    let mut disk = empty_disk();
    put(&mut db, "a", "old");
    put(&mut db, "b", "old");
    put(&mut db, "c", "old");
    assert!(flush(&mut db, &mut disk));
    put(&mut db, "a", "mid");
    commit(&mut db, Db::delete(b"b"));
    db.rotate();
    assert_eq!(get(&db, "a").as_deref(), Some("mid"));
    put(&mut db, "a", "new");
    assert_eq!(get(&db, "a").as_deref(), Some("new"));
    assert_eq!(get(&db, "b"), None);
    assert_eq!(get(&db, "c").as_deref(), Some("old"));
    let keys: Vec<&[u8]> = vec![b"c", b"b", b"a", b"c", b"zz"];
    let many = db.get_many(&keys).unwrap();
    for (i, k) in keys.iter().enumerate() {
        assert_eq!(many[i], db.get(k).unwrap());
    }
    assert_eq!(
        scan(&db, ""),
        vec![("a".to_string(), "new".to_string()), ("c".to_string(), "old".to_string())]
    );
    assert!(flush(&mut db, &mut disk));
    assert!(!flush(&mut db, &mut disk));
    assert_eq!(get(&db, "a").as_deref(), Some("new"));
    assert_eq!(get(&db, "b"), None);
}

#[test]
fn counters_follow_the_lookups() {
    let mut db = fresh();
    let mut disk = empty_disk();
    put(&mut db, "m", "1");
    flush(&mut db, &mut disk);
    put(&mut db, "n", "2");
    let mut stats = Stats::new();
    db.get_inner(b"n", &mut stats).unwrap();
    db.get_inner(b"m", &mut stats).unwrap();
    db.get_inner(b"zz", &mut stats).unwrap();
    let s = stats.snapshot();
    assert_eq!(s.lookups, 3);
    assert_eq!(s.memtable_hits, 1);
    assert_eq!(s.segments_considered, 2);
    assert_eq!(s.segments_range_skipped, 1);
    assert_eq!(s.segments_index_searched, 1);
    let mut path = ReadPath::new(0);
    path.attach(&db);
    let keys: Vec<&[u8]> = vec![b"m", b"m", b"n"];
    db.get_many_through(&keys, &mut path).unwrap();
    let s = Db::read_path_stats(&path);
    assert_eq!((s.lookups, s.memtable_hits, s.segments_considered), (2, 1, 1));
    assert_eq!((s.blocks_read, s.entries_decoded), (1, 1));
}

#[test]
fn scans_keep_to_their_prefix() {
    let mut db = fresh();
    let mut disk = empty_disk();
    for k in ["a", "ab", "abc", "b", "ac"] {
        put(&mut db, k, k);
    }
    flush(&mut db, &mut disk);
    put(&mut db, "aba", "x");
    commit(&mut db, Db::delete(b"abc"));
    let keys: Vec<String> = scan(&db, "ab").into_iter().map(|r| r.0).collect();
    assert_eq!(keys, vec!["ab", "aba"]);
    commit(&mut db, Db::put(&[0xff, 0xff, 1], b"hi"));
    assert_eq!(db.scan(&[0xff, 0xff]).unwrap().len(), 1);
    assert_eq!(aikoql::db::scan::prefix_end(b"ab"), Some(b"ac".to_vec()));
    assert_eq!(aikoql::db::scan::prefix_end(&[1, 0xff]), Some(vec![2]));
    assert_eq!(aikoql::db::scan::prefix_end(&[0xff]), None);
    assert_eq!(aikoql::db::scan::prefix_end(b""), None);
}

#[test]
fn objects_keep_to_themselves() {
    let mut db = fresh();
    let mut disk = empty_disk();
    let a = ObjectId([1; 16]);
    let b = ObjectId([2; 16]);
    let ops = db.put_object(a, b"k", b"a").unwrap();
    assert_eq!(ops.len(), 2);
    commit(&mut db, ops);
    let ops = db.put_object(b, b"k", b"b").unwrap();
    commit(&mut db, ops);
    let ops = db.put_object(a, b"k", b"a2").unwrap();
    assert_eq!(ops.len(), 1);
    commit(&mut db, ops);
    for round in 0..2 {
        assert_eq!(db.get_object(a, b"k").unwrap(), Some(b"a2".to_vec()));
        assert_eq!(db.get_object(b, b"k").unwrap(), Some(b"b".to_vec()));
        assert_eq!(db.get_object(ObjectId([3; 16]), b"k").unwrap(), None);
        if round == 0 {
            assert!(flush(&mut db, &mut disk));
        }
    }
    let ops = db.delete_object(a, b"k").unwrap();
    commit(&mut db, ops);
    assert_eq!(db.get_object(a, b"k").unwrap(), None);
    assert_eq!(
        db.delete_object(ObjectId([3; 16]), b"k").unwrap_err().to_text(),
        "invalid: delete_object on unknown ObjectId ObjectId(03030303030303030303030303030303)"
    );
    let lid = LocalIdentityDirectory::new(&db).resolve(a).unwrap().unwrap();
    assert_eq!(lid, LogicalId(1));
    let rid = LocalReplicaDirectory::new(&db).resolve_local(lid).unwrap().unwrap();
    assert_eq!(rid, ReplicaId(1));
    let all = LocalTopology::new(&db).replicas_for(lid).unwrap();
    assert_eq!(all.len(), 1);
    assert_eq!(all[0].node, NodeId(1));
    assert!(LocalTopology::new(&db).replicas_for(LogicalId(99)).unwrap().is_empty());
    let place = LocalPlacementResolver::new(&db).resolve(rid).unwrap().unwrap();
    assert!(matches!(place, Placement::Segment(_)));
}

#[test]
fn created_objects_get_fresh_identities() {
    let mut db = fresh();
    let (oid, ops) = db.create_object();
    let (other, more) = db.create_object();
    assert!(oid.0 != other.0);
    commit(&mut db, ops.clone());
    commit(&mut db, more);
    assert_eq!(db.resolve_object(oid), Some(LogicalId(1)));
    assert_eq!(db.resolve_object(other), Some(LogicalId(2)));
    assert_eq!(
        db.resolve_placement(ReplicaId(1)),
        Some(Placement::Memtable { generation: 1 })
    );
    let clash = vec![Op::CreateObject {
        oid,
        lid: LogicalId(7),
        rid: ReplicaId(7),
        pgen: 9,
    }];
    let seq = db.write(&clash).unwrap();
    let err = db.finish_write(seq, &clash, Ok(())).unwrap_err().to_text();
    assert!(err.contains("maps to both 1 and 7"), "got: {err}");
}

#[test]
fn flushed_state_comes_back() {
    let mut db = fresh();
    let mut disk = empty_disk();
    let a = ObjectId([9; 16]);
    put(&mut db, "k", "v");
    let ops = db.put_object(a, b"o", b"1").unwrap();
    commit(&mut db, ops);
    flush(&mut db, &mut disk);
    put(&mut db, "k2", "v2");
    flush(&mut db, &mut disk);
    let back = reopen(&disk, vec![]);
    assert_eq!(get(&back, "k").as_deref(), Some("v"));
    assert_eq!(get(&back, "k2").as_deref(), Some("v2"));
    assert_eq!(back.get_object(a, b"o").unwrap(), Some(b"1".to_vec()));
    assert_eq!(back.resolve_object(a), db.resolve_object(a));
    assert_eq!(back.next_seq, db.next_seq);
    assert_eq!(back.next_segment_id, db.next_segment_id);
    assert_eq!(back.next_logical_id, db.next_logical_id);
    assert_eq!(back.next_placement_generation, db.next_placement_generation);
}

#[test]
fn logged_writes_come_back() {
    let mut db = fresh();
    let mut wal = Vec::new();
    let batches = vec![Db::put(b"a", b"1"), Db::put(b"a", b"2"), Db::delete(b"b")];
    for ops in &batches {
        let seq = db.write(ops).unwrap();
        wal.extend(encode_frame(seq, ops).unwrap());
        db.finish_write(seq, ops, Ok(())).unwrap();
    }
    let (oid, ops) = db.create_object();
    let seq = db.write(&ops).unwrap();
    wal.extend(encode_frame(seq, &ops).unwrap());
    db.finish_write(seq, &ops, Ok(())).unwrap();
    let mut files = nothing();
    files.wal = wal.clone();
    let back = open_from(&fresh_current(), fresh_manifest(), files);
    assert_eq!(get(&back, "a").as_deref(), Some("2"));
    assert_eq!(back.next_seq, 5);
    assert_eq!(back.resolve_object(oid), Some(LogicalId(1)));
    let (frames, _) = replay_frames(&wal).unwrap();
    assert_eq!(frames[0].ops, batches[0]);
    let mut torn = nothing();
    torn.wal = wal[..wal.len() - 2].to_vec();
    let x = recover(&fresh_current(), fresh_manifest(), torn).unwrap();
    assert!(x.wal_len < wal.len() - 2);
    assert_eq!(x.last_seq, 3);
}

#[test]
fn logged_objects_come_back() {
    let mut db = fresh();
    let mut wal = Vec::new();
    let a = ObjectId([1; 16]);
    let b = ObjectId([2; 16]);
    let mut log = |db: &mut Db, ops: Vec<Op>| {
        let seq = db.write(&ops).unwrap();
        wal.extend(encode_frame(seq, &ops).unwrap());
        db.finish_write(seq, &ops, Ok(())).unwrap();
    };
    let ops = db.put_object(a, b"k", b"1").unwrap();
    log(&mut db, ops);
    let ops = db.put_object(b, b"k", b"2").unwrap();
    log(&mut db, ops);
    let ops = db.put_object(a, b"gone", b"3").unwrap();
    log(&mut db, ops);
    let ops = db.delete_object(a, b"gone").unwrap();
    log(&mut db, ops);
    let mut files = nothing();
    files.wal = wal;
    let mut back = open_from(&fresh_current(), fresh_manifest(), files);
    assert_eq!(back.get_object(a, b"k").unwrap(), Some(b"1".to_vec()));
    assert_eq!(back.get_object(b, b"k").unwrap(), Some(b"2".to_vec()));
    assert_eq!(back.get_object(a, b"gone").unwrap(), None);
    for oid in [a, b] {
        let rid = db.resolve_replica(oid).unwrap().unwrap();
        assert_eq!(back.resolve_replica(oid).unwrap(), Some(rid));
        assert_eq!(back.resolve_placement(rid), db.resolve_placement(rid));
    }
    assert_eq!(
        back.resolve_placement(ReplicaId(2)),
        Some(Placement::Memtable { generation: 2 })
    );
    assert_eq!(back.next_placement_generation, db.next_placement_generation);
    assert_eq!(back.next_logical_id, db.next_logical_id);
    assert_eq!(back.next_replica_id, db.next_replica_id);
    let mut disk = empty_disk();
    assert!(flush(&mut back, &mut disk));
    assert_eq!(reopen(&disk, vec![]).get_object(b, b"k").unwrap(), Some(b"2".to_vec()));
}

fn copies(v: &[LogFile]) -> Vec<LogFile> {
    v.iter()
        .map(|f| LogFile { generation: f.generation, bytes: f.bytes.clone() })
        .collect()
}

#[test]
fn a_checkpoint_stands_for_its_logs() {
    let mut db = fresh();
    let mut disk = empty_disk();
    let mut oids = vec![];
    let mut checkpoint = None;
    for round in 0..3u8 {
        for i in 0..3u8 {
            let oid = ObjectId([round * 10 + i + 1; 16]);
            let ops = db.put_object(oid, b"k", &[round, i]).unwrap();
            commit(&mut db, ops);
            oids.push(oid);
        }
        flush(&mut db, &mut disk);
        if round == 1 {
            let c = DirectoryCheckpoint::from_state(
                db.generation,
                &db.dirs.identity,
                &db.dirs.replicas,
                &db.dirs.placements,
            );
            checkpoint = Some(DirectoryCheckpoint::decode(&c.encode()).unwrap());
        }
    }
    let covered = checkpoint.as_ref().unwrap().generation;
    assert_eq!(covered, 3);
    // The covered logs are still there in one round, and pruned in the other.
    for pruned in [false, true] {
        let keep = |v: &Vec<LogFile>| {
            copies(v)
                .into_iter()
                .filter(|f| !pruned || f.generation > covered)
                .collect::<Vec<_>>()
        };
        let manifest = Manifest::decode(&disk.manifest).unwrap();
        let files = Files {
            checkpoint: checkpoint.clone(),
            orphan_placements: vec![],
            identity: keep(&disk.identity),
            replicas: keep(&disk.replicas),
            placements: keep(&disk.placements),
            segments: disk.segments.iter().map(|(_, b)| Ok(b.clone())).collect(),
            wal: vec![],
        };
        let back = open_from(&Current::decode(&disk.current).unwrap(), manifest, files);
        for (i, oid) in oids.iter().enumerate() {
            assert_eq!(back.resolve_object(*oid), db.resolve_object(*oid));
            let rid = db.resolve_replica(*oid).unwrap().unwrap();
            assert_eq!(back.resolve_placement(rid), db.resolve_placement(rid));
            let (round, at) = ((i / 3) as u8, (i % 3) as u8);
            assert_eq!(back.get_object(*oid, b"k").unwrap(), Some(vec![round, at]));
        }
        assert_eq!(back.next_placement_generation, db.next_placement_generation);
    }
}

#[test]
fn orphan_generations_are_not_given_again() {
    let orphan = PlacementLog {
        format_version: 1,
        generation: 2,
        records: vec![PlacementRecord {
            rid: ReplicaId(1),
            placement: Placement::Memtable { generation: 41 },
        }],
    };
    let mut files = nothing();
    files.orphan_placements = vec![LogFile { generation: 2, bytes: Ok(orphan.encode()) }];
    let mut db = open_from(&fresh_current(), fresh_manifest(), files);
    assert_eq!(db.next_placement_generation, 42);
    assert_eq!(db.resolve_placement(ReplicaId(1)), None);
    let (_, ops) = db.create_object();
    assert!(matches!(ops[0], Op::CreateObject { pgen: 42, .. }));
}

#[test]
fn compaction_keeps_a_deletion_over_an_older_row() {
    let mut db = fresh();
    let mut disk = empty_disk();
    let a = ObjectId([1; 16]);
    let b = ObjectId([2; 16]);
    let ops = db.put_object(a, b"k", b"a").unwrap();
    commit(&mut db, ops);
    let ops = db.put_object(b, b"k", b"b").unwrap();
    commit(&mut db, ops);
    flush(&mut db, &mut disk);
    let ops = db.delete_object(b, b"k").unwrap();
    commit(&mut db, ops);
    flush(&mut db, &mut disk);
    assert_eq!(get(&db, "k"), None);
    compact(&mut db, &mut disk, &KeepAll);
    assert_eq!(get(&db, "k"), None);
    assert!(scan(&db, "").is_empty());
    assert_eq!(db.get_object(a, b"k").unwrap(), Some(b"a".to_vec()));
    assert_eq!(db.get_object(b, b"k").unwrap(), None);
    assert_eq!(db.segments.iter().map(|s| s.entry_count()).sum::<u64>(), 2);
    let ops = db.delete_object(a, b"k").unwrap();
    commit(&mut db, ops);
    flush(&mut db, &mut disk);
    compact(&mut db, &mut disk, &KeepAll);
    assert_eq!(db.segments.len(), 0);
    assert_eq!(get(&db, "k"), None);
}

#[test]
fn chunks_never_share_a_key() {
    let mut db = fresh();
    let mut disk = empty_disk();
    db.config.merge_chunk_bytes = 60;
    for key in ["k1", "k2", "k3"] {
        for n in 0..4u8 {
            let ops = db.put_object(ObjectId([n + 1; 16]), key.as_bytes(), &[n; 10]).unwrap();
            commit(&mut db, ops);
            if n == 1 {
                flush(&mut db, &mut disk);
            }
        }
    }
    flush(&mut db, &mut disk);
    let before = scan(&db, "");
    compact(&mut db, &mut disk, &KeepAll);
    assert_eq!(db.segments.len(), 3);
    for w in db.records.windows(2) {
        assert!(w[0].key_max < w[1].key_min);
        assert!(w[0].segment_id < w[1].segment_id);
    }
    assert!(db.segments.iter().all(|s| s.entry_count() == 4));
    assert_eq!(scan(&db, ""), before);
    assert_eq!(get(&db, "k2").map(|v| v.into_bytes()), Some(vec![3u8; 10]));
    for n in 0..4u8 {
        assert_eq!(db.get_object(ObjectId([n + 1; 16]), b"k3").unwrap(), Some(vec![n; 10]));
    }
}

#[test]
fn known_objects_need_no_new_identity() {
    let mut db = fresh();
    let a = ObjectId([1; 16]);
    let ops = db.put_object(a, b"k", b"1").unwrap();
    commit(&mut db, ops);
    db.next_logical_id = u64::MAX;
    let ops = db.put_object(a, b"k", b"2").unwrap();
    assert_eq!(ops, vec![Op::PutObject(ReplicaId(1), b"k".to_vec(), b"2".to_vec())]);
}

#[test]
fn recovery_fails_closed() {
    let pair = recover(&Current::new(1, 9), fresh_manifest(), nothing());
    assert!(pair.is_err());
    let mut db = fresh();
    let mut disk = empty_disk();
    put(&mut db, "k", "v");
    flush(&mut db, &mut disk);
    let manifest = Manifest::decode(&disk.manifest).unwrap();
    let mut files = nothing();
    files.segments = vec![Err(FormatError::Io("read SEGMENT-000001.seg: gone".to_string()))];
    let err = match recover(&Current::decode(&disk.current).unwrap(), manifest.clone(), files) {
        Err(e) => e.to_text(),
        Ok(_) => panic!("a missing segment must fail"),
    };
    assert_eq!(err, "io: read SEGMENT-000001.seg: gone");
    let names = vec!["SEGMENT-000009.seg".to_string(), "SEGMENT-000001.seg".to_string()];
    assert_eq!(orphan_segments(&names, &manifest), vec![9]);
}

#[test]
fn compaction_changes_no_read() {
    let mut db = fresh();
    let mut disk = empty_disk();
    for round in 0..3 {
        for i in 0..20 {
            put(&mut db, &format!("k{i:02}"), &format!("v{round}-{i}"));
        }
        commit(&mut db, Db::delete(format!("k{:02}", round).as_bytes()));
        flush(&mut db, &mut disk);
    }
    let a = ObjectId([4; 16]);
    let ops = db.put_object(a, b"obj", b"1").unwrap();
    commit(&mut db, ops);
    flush(&mut db, &mut disk);
    let before = scan(&db, "");
    assert_eq!(compact(&mut db, &mut disk, &KeepAll), 0);
    assert_eq!(db.segments.len(), 1);
    assert_eq!(scan(&db, ""), before);
    assert_eq!(get(&db, "k02"), None);
    assert_eq!(get(&db, "k00").as_deref(), Some("v2-0"));
    assert_eq!(db.get_object(a, b"obj").unwrap(), Some(b"1".to_vec()));
    let back = reopen(&disk, vec![]);
    assert_eq!(scan(&back, ""), before);
    assert_eq!(back.get_object(a, b"obj").unwrap(), Some(b"1".to_vec()));
    assert_eq!(back.resolve_placement(ReplicaId(1)), db.resolve_placement(ReplicaId(1)));
}

#[test]
fn compaction_cuts_chunks_and_retires_replicas() {
    let mut db = fresh();
    let mut disk = empty_disk();
    db.config.merge_chunk_bytes = 200;
    for i in 0..30 {
        put(&mut db, &format!("k{i:02}"), "0123456789");
    }
    let a = ObjectId([5; 16]);
    let ops = db.put_object(a, b"zz", b"1").unwrap();
    commit(&mut db, ops);
    flush(&mut db, &mut disk);
    let ops = db.delete_object(a, b"zz").unwrap();
    commit(&mut db, ops);
    flush(&mut db, &mut disk);
    let before = scan(&db, "");
    compact(&mut db, &mut disk, &KeepAll);
    assert!(db.segments.len() > 3);
    assert_eq!(scan(&db, ""), before);
    assert!(matches!(
        db.resolve_placement(ReplicaId(1)),
        Some(Placement::Retired { .. })
    ));
    assert!(db.compact_wanted());
}

struct ByFirstByte;

impl RetentionPolicy for ByFirstByte {
    fn classify(&self, key: &[u8]) -> Retention {
        match key.first() {
            Some(b'd') => Retention::Drop,
            Some(b'a') => Retention::Archive,
            _ => Retention::Keep,
        }
    }
}

#[test]
fn retention_drops_and_archives() {
    let mut db = fresh();
    let mut disk = empty_disk();
    put(&mut db, "a1", "x");
    put(&mut db, "d1", "x");
    put(&mut db, "k1", "x");
    flush(&mut db, &mut disk);
    put(&mut db, "a1", "y");
    flush(&mut db, &mut disk);
    assert_eq!(compact(&mut db, &mut disk, &ByFirstByte), 1);
    assert_eq!(scan(&db, ""), vec![("k1".to_string(), "x".to_string())]);
}

#[test]
fn compaction_waits_for_enough_segments() {
    let mut db = fresh();
    let mut disk = empty_disk();
    for i in 0..3 {
        put(&mut db, &format!("k{i}"), "v");
        flush(&mut db, &mut disk);
        assert!(!db.compaction_due());
    }
    assert!(db.compact().unwrap().is_some());
    put(&mut db, "k9", "v");
    flush(&mut db, &mut disk);
    assert!(db.compaction_due());
    let mut one = fresh();
    put(&mut one, "k", "v");
    flush(&mut one, &mut disk);
    assert!(one.compact().unwrap().is_none());
}

#[test]
fn memtables_fill_up() {
    let mut db = fresh();
    assert!(!db.flush_due());
    put(&mut db, "k", &"x".repeat(1000));
    assert!(db.flush_due());
}

#[test]
fn groups_respect_their_caps() {
    let mut config = Config::new("/g".to_string());
    config.max_batch_ops = 3;
    config.max_batch_bytes = 100;
    let one = || Db::put(b"k", b"v");
    let mut g = Group::start(one());
    assert!(!g.full(&config));
    assert!(g.offer(one(), &config).is_none());
    assert!(g.offer(one(), &config).is_none());
    assert!(g.full(&config));
    assert_eq!(g.offer(one(), &config), Some(one()));
    let mut g = Group::start(one());
    let large = Db::put(b"k", &[0u8; 99]);
    assert_eq!(batch_bytes_of(&large), 100);
    assert_eq!(batch_ops_of(&large), 1);
    assert_eq!(g.offer(large.clone(), &config), Some(large));

    let mut db = fresh();
    let group = vec![Db::put(b"a", b"1"), Db::delete(b"a"), Db::put(b"b", b"2")];
    let seqs: Vec<u64> = group.iter().map(|_| db.take_seq()).collect();
    assert_eq!(seqs, vec![1, 2, 3]);
    db.commit_group(&group, &seqs, Ok(())).unwrap();
    assert_eq!(get(&db, "a"), None);
    assert_eq!(get(&db, "b").as_deref(), Some("2"));
    let lost = db.commit_group(&group, &vec![4], Err(FormatError::Io("sync".to_string())));
    assert_eq!(lost.unwrap_err().to_text(), "io: sync");
}

#[test]
fn storage_batches_put_before_they_delete() {
    let b = WriteBatch {
        puts: vec![(b"k".to_vec(), b"v".to_vec()), (b"l".to_vec(), b"w".to_vec())],
        dels: vec![b"k".to_vec()],
    };
    assert!(!b.is_empty());
    let mut db = fresh();
    commit(&mut db, b.to_ops().unwrap());
    assert_eq!(get(&db, "k"), None);
    assert_eq!(get(&db, "l").as_deref(), Some("w"));
    let none = WriteBatch { puts: vec![], dels: vec![] };
    assert!(none.is_empty());
    assert!(none.to_ops().is_none());
    assert_eq!(store_error(&FormatError::Invalid("x".to_string())), "aikoql-v2: invalid: x");
}

#[test]
fn scans_agree_with_reads() {
    let mut db = fresh();
    let mut disk = empty_disk();
    for i in 0..20 {
        put(&mut db, &format!("a{i:02}"), &format!("old{i}"));
    }
    flush(&mut db, &mut disk);
    for i in (0..20).step_by(3) {
        put(&mut db, &format!("a{i:02}"), &format!("new{i}"));
    }
    put(&mut db, "b", "other");
    flush(&mut db, &mut disk);
    commit(&mut db, Db::delete(b"a04"));
    put(&mut db, "a99", "last");
    db.rotate();
    put(&mut db, "a04", "back");
    commit(&mut db, Db::delete(b"a05"));
    let rows = scan(&db, "a");
    assert!(rows.windows(2).all(|w| w[0].0 < w[1].0));
    for i in 0..100 {
        let key = format!("a{i:02}");
        let shown = rows.iter().find(|r| r.0 == key).map(|r| r.1.clone());
        assert_eq!(shown, get(&db, &key));
    }
    assert_eq!(rows.len(), 20);
    assert!(rows.contains(&("a04".to_string(), "back".to_string())));
    assert!(rows.contains(&("a03".to_string(), "new3".to_string())));
    assert!(rows.iter().all(|r| r.0 != "a05" && r.0 != "b"));
}

#[test]
fn an_interrupted_flush_loses_nothing() {
    let mut db = fresh();
    let mut disk = empty_disk();
    let mut wal = Vec::new();
    for ops in [Db::put(b"k", b"1"), Db::put(b"k", b"2"), Db::delete(b"x")] {
        let seq = db.write(&ops).unwrap();
        wal.extend(encode_frame(seq, &ops).unwrap());
        db.finish_write(seq, &ops, Ok(())).unwrap();
    }
    flush(&mut db, &mut disk);
    // The log was not emptied: its rows come back beside the segment.
    let back = reopen(&disk, wal);
    assert_eq!(get(&back, "k"), get(&db, "k"));
    assert_eq!(get(&back, "x"), None);
    assert_eq!(scan(&back, ""), scan(&db, ""));
    assert_eq!(back.next_seq, db.next_seq);
}

#[test]
fn pending_directories_survive_the_log() {
    let mut db = fresh();
    let mut disk = empty_disk();
    let (oid, ops) = db.create_object();
    commit(&mut db, ops);
    put(&mut db, "k", "v");
    flush(&mut db, &mut disk);
    let back = reopen(&disk, vec![]);
    assert_eq!(back.resolve_object(oid), db.resolve_object(oid));
    let lid = db.resolve_object(oid).unwrap();
    assert_eq!(back.resolve_local(lid), db.resolve_local(lid));
    let rid = db.resolve_local(lid).unwrap();
    assert_eq!(back.resolve_placement(rid), db.resolve_placement(rid));
}

#[test]
fn counters_leave_room() {
    let mut db = fresh();
    let mut disk = empty_disk();
    for round in 0..2 {
        put(&mut db, "k", &format!("{round}"));
        flush(&mut db, &mut disk);
    }
    put(&mut db, "k2", "v");
    assert!(db.can_write() && db.can_create() && db.can_flush() && db.can_compact());
    db.next_seq = u64::MAX;
    assert!(!db.can_write());
    db.next_logical_id = u64::MAX;
    assert!(!db.can_create());
    db.next_segment_id = u64::MAX;
    assert!(!db.can_flush() && !db.can_compact());
    db.next_segment_id = u64::MAX - 1;
    assert!(db.can_flush() && !db.can_compact());
    db.next_segment_id = u64::MAX - 4;
    assert!(db.can_compact());
    db.generation = u64::MAX;
    assert!(!db.can_flush() && !db.can_compact());
}

#[test]
fn a_failing_segment_ends_a_batch_of_reads() {
    let mut db = fresh();
    let mut disk = empty_disk();
    for k in ["a", "b"] {
        put(&mut db, k, "v");
        flush(&mut db, &mut disk);
    }
    put(&mut db, "m", "in memory");
    let mut path = ReadPath::new(10_000);
    path.attach(&db);
    let keys: Vec<&[u8]> = vec![b"a", b"m", b"b", b"a", b"zz"];
    let got = db.get_many_through(&keys, &mut path).unwrap();
    assert_eq!(got[0], got[3]);
    assert_eq!(got[1], Some(b"in memory".to_vec()));
    assert_eq!(got[4], None);
    let c = Db::read_path_stats(&path);
    assert_eq!((c.lookups, c.memtable_hits, c.segments_considered), (4, 1, 2));
    assert_eq!(c.segments_index_searched, 2);
    assert_eq!((c.blocks_read, c.block_cache_misses, c.block_cache_hits), (2, 2, 0));
    assert_eq!(db.get_many_through(&keys, &mut path).unwrap(), got);
    let c = Db::read_path_stats(&path);
    assert_eq!((c.blocks_read, c.block_cache_misses, c.block_cache_hits), (2, 2, 2));
    let at = db.segments[1].data[0].header + 29;
    db.segments[1].bytes[at] ^= 1;
    let mut path = ReadPath::new(0);
    path.attach(&db);
    assert_eq!(
        db.get_many_through(&keys, &mut path).unwrap_err(),
        FormatError::Corrupt("data block 0 checksum mismatch".to_string())
    );
    let c = Db::read_path_stats(&path);
    // Only the newest segment was met.
    assert_eq!((c.lookups, c.memtable_hits, c.segments_considered), (4, 1, 1));
    assert_eq!(c.segments_index_searched, 1);
    assert_eq!(db.get_many(&vec![b"a".as_slice()]).unwrap(), vec![Some(b"v".to_vec())]);
}

#[test]
fn reads_through_the_cache_answer_alike() {
    let mut db = fresh();
    let mut disk = empty_disk();
    let mut path = ReadPath::new(500);
    path.attach(&db);
    for round in 0..3 {
        for i in 0..15 {
            put(&mut db, &format!("k{:02}", i * (round + 1)), &format!("v{round}"));
        }
        flush(&mut db, &mut disk);
        path.extend(&db);
        for i in 0..60 {
            let key = format!("k{i:02}");
            let got = db.get_through(key.as_bytes(), &mut path).unwrap();
            assert_eq!(got, db.get(key.as_bytes()).unwrap());
        }
    }
    assert_eq!(path.ids, vec![0, 1, 2]);
    let cache = Db::cache_stats(&path);
    let counted = Db::read_path_stats(&path);
    assert!(cache.hits > 0 && cache.evictions > 0 && cache.bytes <= 500);
    assert_eq!(counted.block_cache_hits, cache.hits);
    assert_eq!(counted.block_cache_misses, cache.misses);
    assert_eq!(counted.blocks_read, cache.misses);
    assert_eq!(counted.lookups, 180);
    compact(&mut db, &mut disk, &KeepAll);
    path.attach(&db);
    assert!(path.ids[0] >= 3);
    assert_eq!(db.get_through(b"k00", &mut path).unwrap(), Some(b"v2".to_vec()));
}

/// The row that a replica's placement leads to.
fn placed_row(db: &Db, rid: ReplicaId) -> (Vec<u8>, u64, ReplicaId) {
    let loc = match db.resolve_placement(rid) {
        Some(Placement::Segment(loc)) => loc,
        other => panic!("no segment: {other:?}"),
    };
    let at = db.records.iter().position(|r| r.segment_id == loc.segment_id.0).unwrap();
    let row = db.segments[at].entry_at(loc.block_id, loc.entry_offset).unwrap().unwrap();
    (row.value, row.seq, row.replica_id)
}

#[test]
fn placements_lead_to_the_newest_rows() {
    let mut db = fresh();
    let mut disk = empty_disk();
    let a = ObjectId([1; 16]);
    let b = ObjectId([2; 16]);
    let mut last = 0;
    for i in 0..10 {
        let ops = db.put_object(a, format!("k{i}").as_bytes(), b"a").unwrap();
        commit(&mut db, ops);
        let ops = db.put_object(b, b"same", format!("{i}").as_bytes()).unwrap();
        last = commit(&mut db, ops);
    }
    let rid = db.resolve_replica(b).unwrap().unwrap();
    assert!(matches!(db.resolve_placement(rid), Some(Placement::Memtable { .. })));
    flush(&mut db, &mut disk);
    assert_eq!(placed_row(&db, rid), (b"9".to_vec(), last, rid));
    let ops = db.put_object(b, b"same", b"newer").unwrap();
    let newest = commit(&mut db, ops);
    flush(&mut db, &mut disk);
    assert_eq!(placed_row(&db, rid), (b"newer".to_vec(), newest, rid));
    compact(&mut db, &mut disk, &KeepAll);
    assert_eq!(placed_row(&db, rid), (b"newer".to_vec(), newest, rid));
    let other = db.resolve_replica(a).unwrap().unwrap();
    assert_eq!(placed_row(&db, other).2, other);
    let back = reopen(&disk, vec![]);
    assert_eq!(placed_row(&back, rid), (b"newer".to_vec(), newest, rid));
}

#[test]
fn counters_follow_the_blocks() {
    let mut db = fresh();
    let mut disk = empty_disk();
    for i in 0..20 {
        put(&mut db, &format!("k{i:02}"), "0123456789");
    }
    let a = ObjectId([1; 16]);
    let ops = db.put_object(a, b"obj", b"1").unwrap();
    commit(&mut db, ops);
    flush(&mut db, &mut disk);
    let blocks = db.segments[0].block_count() as u64;
    assert!(blocks > 3);
    // Without a cache every block that is read is loaded.
    let mut path = ReadPath::new(0);
    path.attach(&db);
    for round in 1..3u64 {
        assert_eq!(db.scan_through(b"", &mut path).unwrap(), db.scan(b"").unwrap());
        let s = Db::read_path_stats(&path);
        assert_eq!(s.blocks_read, round * blocks);
        assert_eq!(s.entries_decoded, round * 21);
        assert_eq!((s.block_cache_hits, s.block_cache_misses, s.lookups), (0, 0, 0));
    }
    // With one, only the first scan loads.
    let mut path = ReadPath::new(100_000);
    path.attach(&db);
    for _ in 0..2 {
        assert_eq!(db.scan_through(b"k1", &mut path).unwrap().len(), 10);
    }
    let s = Db::read_path_stats(&path);
    assert_eq!(s.block_cache_hits, s.block_cache_misses);
    assert_eq!(s.blocks_read, s.block_cache_misses);
    assert!(s.blocks_read < blocks);
    assert_eq!(db.get_object_through(a, b"obj", &mut path).unwrap(), Some(b"1".to_vec()));
    assert_eq!(
        db.get_object_through(ObjectId([7; 16]), b"obj", &mut path).unwrap(),
        None
    );
    let t = Db::read_path_stats(&path);
    assert_eq!(
        t.block_cache_hits + t.block_cache_misses,
        s.block_cache_hits + s.block_cache_misses + 1
    );
    assert_eq!(db.get_through(b"k03", &mut path).unwrap(), Some(b"0123456789".to_vec()));
    let u = Db::read_path_stats(&path);
    assert!(u.entries_decoded > t.entries_decoded);
    assert_eq!(u.lookups, 1);
}

#[test]
fn merges_read_through_the_cache() {
    let mut db = fresh();
    let mut disk = empty_disk();
    for name in ["k", "m"] {
        for i in 0..20 {
            put(&mut db, &format!("{name}{i:02}"), "0123456789");
        }
        flush(&mut db, &mut disk);
    }
    let blocks: u64 = db.segments.iter().map(|s| s.block_count() as u64).sum();
    let mut path = ReadPath::new(100_000);
    path.attach(&db);
    db.scan_through(b"k", &mut path).unwrap();
    let s = Db::read_path_stats(&path);
    assert!(s.blocks_read > 0 && s.blocks_read < blocks);
    assert!(db.can_compact());
    let plan = db.compact_through(&KeepAll, &mut path).unwrap().unwrap();
    let t = Db::read_path_stats(&path);
    // What the scan left in the cache is not loaded again.
    assert_eq!(t.blocks_read, blocks);
    assert_eq!(t.block_cache_hits - s.block_cache_hits, s.blocks_read);
    assert_eq!(t.entries_decoded, s.entries_decoded + 40);
    assert_eq!(plan.stats.entries_in, 40);
    db.finish_compact(plan).unwrap();
    path.attach(&db);
    assert_eq!(db.get_through(b"k03", &mut path).unwrap(), Some(b"0123456789".to_vec()));
    // Without a cache every block is loaded again.
    let mut path = ReadPath::new(0);
    path.attach(&db);
    let blocks: u64 = db.segments.iter().map(|s| s.block_count() as u64).sum();
    db.compact_through(&KeepAll, &mut path).unwrap();
    let s = Db::read_path_stats(&path);
    assert_eq!((s.blocks_read, s.entries_decoded), (blocks, 40));
}

#[test]
fn reads_give_the_last_acknowledged_change() {
    let mut db = fresh();
    let mut wal = Vec::new();
    let batches = vec![
        vec![Op::Put(b"a".to_vec(), b"1".to_vec()), Op::Delete(b"a".to_vec())],
        vec![Op::Put(b"b".to_vec(), b"1".to_vec()), Op::Put(b"b".to_vec(), b"2".to_vec())],
        vec![Op::Delete(b"c".to_vec()), Op::Put(b"c".to_vec(), b"3".to_vec())],
    ];
    for ops in &batches {
        let seq = db.write(ops).unwrap();
        wal.extend(encode_frame(seq, ops).unwrap());
        db.finish_write(seq, ops, Ok(())).unwrap();
    }
    let whole = wal.len();
    wal.extend([0x41, 0x4b, 0x57]);
    let mut files = nothing();
    files.wal = wal;
    let x = recover(&fresh_current(), fresh_manifest(), files).unwrap();
    assert_eq!(x.wal_len, whole);
    let back = Db::open(Config::new("/db".to_string()), x);
    for d in [&db, &back] {
        assert_eq!(get(d, "a"), None);
        assert_eq!(get(d, "b").as_deref(), Some("2"));
        assert_eq!(get(d, "c").as_deref(), Some("3"));
        assert_eq!(get(d, "d"), None);
    }
}

#[test]
fn a_damaged_input_fails_the_merge() {
    let mut db = fresh();
    let mut disk = empty_disk();
    for k in ["a", "b"] {
        put(&mut db, k, "v");
        flush(&mut db, &mut disk);
    }
    let at = db.segments[1].data[0].header + 29;
    db.segments[1].bytes[at] ^= 1;
    match db.compact_with(&KeepAll) {
        Err(e) => assert_eq!(e.to_text(), "corrupt: data block 0 checksum mismatch"),
        Ok(_) => panic!("a damaged input must fail"),
    }
    assert_eq!(get(&db, "a").as_deref(), Some("v"));
}

/// Two segments of several blocks, damaged in a block each.
fn damaged(names: [&str; 2], blocks: [usize; 2]) -> Db {
    let mut db = fresh();
    let mut disk = empty_disk();
    for name in names {
        for i in 0..20 {
            put(&mut db, &format!("{name}{i:02}"), "0123456789");
        }
        flush(&mut db, &mut disk);
    }
    for s in db.segments.iter_mut() {
        let n = if s.key_min.starts_with(names[0].as_bytes()) { blocks[0] } else { blocks[1] };
        let at = s.data[n].header + 29;
        s.bytes[at] ^= 1;
    }
    db
}

#[test]
fn a_scan_fails_where_it_first_meets_damage() {
    for (names, blocks, met, loaded) in [
        (["k", "z"], [3, 1], 3, 4),
        (["z", "k"], [1, 3], 3, 4),
        (["k", "z"], [3, 0], 0, 1),
        (["z", "k"], [2, 1], 1, 2),
    ] {
        let db = damaged(names, blocks);
        let told = FormatError::Corrupt(format!("data block {met} checksum mismatch"));
        assert_eq!(db.scan(b"").unwrap_err(), told);
        let mut path = ReadPath::new(0);
        path.attach(&db);
        assert_eq!(db.scan_through(b"", &mut path).unwrap_err(), told);
        // The streams were read key by key up to the damage.
        assert_eq!(Db::read_path_stats(&path).blocks_read, loaded);
    }
}

#[test]
fn anchors_name_the_newest_rows() {
    let mut db = fresh();
    for (i, v) in [(1u8, "1"), (2, "1"), (1, "2"), (1, "3")] {
        let key = format!("o{i}{v}");
        let ops = db.put_object(ObjectId([i; 16]), key.as_bytes(), v.as_bytes()).unwrap();
        commit(&mut db, ops);
    }
    put(&mut db, "plain", "x");
    let p = db.flush().unwrap().unwrap();
    let c = &p.chunks[0];
    assert_eq!(c.anchors.len(), 2);
    assert!(c.anchors[0].replica_id.0 < c.anchors[1].replica_id.0);
    let rows: Vec<Vec<u8>> = c
        .anchors
        .iter()
        .map(|a| c.reader.entry_at(a.block_id, a.entry_offset).unwrap().unwrap().key)
        .collect();
    assert!(rows.contains(&b"o13".to_vec()) && rows.contains(&b"o21".to_vec()));
}

struct ArchiveAll;

impl RetentionPolicy for ArchiveAll {
    fn classify(&self, _key: &[u8]) -> Retention {
        Retention::Archive
    }
}

#[test]
fn a_merge_fails_where_it_first_meets_damage() {
    for (names, blocks, met) in
        [(["k", "z"], [3, 1], 3), (["z", "k"], [1, 3], 3), (["z", "k"], [2, 1], 1)]
    {
        let mut db = damaged(names, blocks);
        let told = FormatError::Corrupt(format!("data block {met} checksum mismatch"));
        assert_eq!(db.compact_with(&KeepAll).err().unwrap(), told);
    }
}

#[test]
fn a_full_chunk_fails_before_the_damage_behind_it() {
    // No block holds anything, so no chunk can be published.
    let refused = FormatError::Invalid("target block size must be > 0".to_string());
    let told = FormatError::Corrupt("data block 3 checksum mismatch".to_string());
    for cap in [60, 1_000_000] {
        let mut db = damaged(["k", "z"], [3, 1]);
        db.config.block_target = 0;
        db.config.merge_chunk_bytes = cap;
        let want = if cap == 60 { &refused } else { &told };
        assert_eq!(db.compact_with(&KeepAll).err().as_ref(), Some(want));
        assert_eq!(db.compact_with(&ArchiveAll).err().as_ref(), Some(want));
    }
}

#[test]
fn an_archive_is_cut_between_any_two_rows() {
    let mut db = fresh();
    let mut disk = empty_disk();
    for v in ["one", "two"] {
        put(&mut db, "key", v);
        flush(&mut db, &mut disk);
    }
    db.config.merge_chunk_bytes = 25;
    let plan = db.compact_with(&ArchiveAll).unwrap().unwrap();
    assert_eq!((plan.archives.len(), plan.stats.entries_archived), (2, 2));
    assert_eq!(plan.archives[0].archive_id, plan.archives[1].archive_id);
    assert_eq!((plan.archives[0].chunk, plan.archives[1].chunk), (0, 1));
    assert!(plan.chunks.is_empty());
}
