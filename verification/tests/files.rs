use aikoql::checkpoint::{
    checkpoint_path, delta_log_generation, directory_log_bytes, load_newest, newest_checkpoint,
    prune_deltas_before, DirectoryCheckpoint, FileInfo,
};
use aikoql::format::{
    checksum8, verify_pair, Current, Cursor, FormatError, Manifest, SegmentRecord, FORMAT_VERSION,
};
use aikoql::identity::directory::{
    identity_log_path, load_identity_logs, load_replica_logs, orphan_identity_logs,
    replica_log_path, IdentityLog, IdentityRecord, LogFile, ReplicaLog, ReplicaRecord,
};
use aikoql::identity::{LogicalId, NodeId, ObjectId, ReplicaId};
use aikoql::idmap::IdMap;
use aikoql::migration::MigrationReport;
use aikoql::placement::directory::{
    load_placement_logs, orphan_placement_max_generation, placement_log_generation,
};
use aikoql::placement::{
    merge_placement, placement_log_path, validate_segment_location, ApplyOutcome, BlockId,
    PhysicalLocation, Placement, PlacementDirectory, PlacementLog, PlacementRecord, SegmentId,
};
use aikoql::wal::{decode_frame, encode_frame, replay_frames, Op, WalFrame};
use std::collections::HashSet;

fn record(id: u64, level: u8) -> SegmentRecord {
    SegmentRecord {
        segment_id: id,
        level,
        key_min: b"a".to_vec(),
        key_max: b"z".to_vec(),
        seq_lo: 1,
        seq_hi: 9,
        record_count: 3,
        file_size: 100,
        checksum: 7,
    }
}

fn text(e: FormatError) -> String {
    e.to_text()
}

/// Puts the right checksum behind changed bytes.
fn seal(bytes: &mut Vec<u8>) {
    let end = bytes.len() - 8;
    let sum = checksum8(&bytes[..end]);
    bytes[end..].copy_from_slice(&sum);
}

/// A file of a later version is unsupported while it is whole, and damage
/// otherwise.
fn version_of<T>(bytes: &[u8], decode: impl Fn(&[u8]) -> Result<T, FormatError>) {
    let mut newer = bytes.to_vec();
    newer[4] = 9;
    assert!(matches!(decode(&newer), Err(FormatError::Corrupt(_))));
    seal(&mut newer);
    assert!(matches!(decode(&newer), Err(FormatError::Unsupported(_))));
    for n in 0..bytes.len() {
        assert!(matches!(decode(&bytes[..n]), Err(FormatError::Corrupt(_))));
    }
    let mut longer = bytes.to_vec();
    longer.push(0);
    assert!(matches!(decode(&longer), Err(FormatError::Corrupt(_))));
}

#[test]
fn later_versions_must_be_whole() {
    version_of(&Current::new(FORMAT_VERSION, 3).encode(), Current::decode);
    let m = Manifest {
        format_version: FORMAT_VERSION,
        generation: 3,
        segments: vec![record(1, 0)],
        wal_ids: vec![5],
    };
    version_of(&m.encode(), Manifest::decode);
    let ids = IdentityLog {
        format_version: FORMAT_VERSION,
        generation: 2,
        records: vec![IdentityRecord { oid: ObjectId([1; 16]), lid: LogicalId(5) }],
    };
    version_of(&ids.encode(), IdentityLog::decode);
    let reps = ReplicaLog {
        format_version: FORMAT_VERSION,
        generation: 2,
        records: vec![ReplicaRecord { lid: LogicalId(5), node: NodeId(1), rid: ReplicaId(6) }],
    };
    version_of(&reps.encode(), ReplicaLog::decode);
    let places = PlacementLog {
        format_version: FORMAT_VERSION,
        generation: 2,
        records: vec![PlacementRecord {
            rid: ReplicaId(6),
            placement: Placement::Memtable { generation: 1 },
        }],
    };
    version_of(&places.encode(), PlacementLog::decode);
    let mut other = places.encode();
    other[18 + 8] = 7;
    assert!(matches!(PlacementLog::decode(&other), Err(FormatError::Corrupt(_))));
    seal(&mut other);
    assert!(matches!(PlacementLog::decode(&other), Err(FormatError::Unsupported(_))));
    let mut map: IdMap<u64, Placement> = IdMap::new();
    map.insert(3, Placement::Retired { generation: 8 });
    let c = DirectoryCheckpoint::from_state(4, &IdMap::new(), &IdMap::new(), &map);
    version_of(&c.encode(), DirectoryCheckpoint::decode);
}

#[test]
fn accepted_bytes_are_their_own_encoding() {
    let ops = vec![Op::PutObject(ReplicaId(9), b"k".to_vec(), vec![1, 2, 3])];
    let mut log = encode_frame(4, &ops).unwrap();
    log.extend(encode_frame(6, &[Op::Delete(b"d".to_vec())]).unwrap());
    let whole = log.len();
    log.extend([1, 2, 3]);
    let (frames, end) = replay_frames(&log).unwrap();
    assert_eq!(end, whole);
    let mut again = Vec::new();
    for f in &frames {
        again.extend(encode_frame(f.seq, &f.ops).unwrap());
    }
    assert_eq!(again, log[..end]);
    let m = Manifest {
        format_version: FORMAT_VERSION,
        generation: 3,
        segments: vec![record(1, 0), record(2, 1)],
        wal_ids: vec![5, 6],
    };
    let bytes = m.encode();
    assert_eq!(Manifest::decode(&bytes).unwrap().encode(), bytes);
}

#[test]
fn placements_end_alike_in_any_order() {
    let rec = |rid: u64, generation: u64| PlacementRecord {
        rid: ReplicaId(rid),
        placement: Placement::Memtable { generation },
    };
    let records = [rec(1, 3), rec(2, 9), rec(1, 7), rec(1, 5)];
    let run = |order: &[usize]| {
        let mut d = PlacementDirectory::default();
        for i in order {
            d.apply(records[*i]).unwrap();
        }
        (d.resolve(ReplicaId(1)).copied(), d.resolve(ReplicaId(2)).copied())
    };
    let want = run(&[0, 1, 2, 3]);
    assert_eq!(want.0, Some(Placement::Memtable { generation: 7 }));
    assert_eq!(run(&[3, 2, 1, 0]), want);
    assert_eq!(run(&[2, 2, 0, 1, 3, 1, 2]), want);
}

#[test]
fn digests_are_sha256() {
    assert_eq!(
        checksum8(b"abc"),
        [0xba, 0x78, 0x16, 0xbf, 0x8f, 0x01, 0xcf, 0xea]
    );
}

#[test]
fn current_reads_back_and_refuses_damage() {
    let c = Current::new(FORMAT_VERSION, 42);
    let bytes = c.encode();
    assert_eq!(Current::decode(&bytes).unwrap(), c);
    let mut bad = bytes.clone();
    bad[8] ^= 1;
    assert!(matches!(Current::decode(&bad), Err(FormatError::Corrupt(_))));
    assert!(matches!(Current::decode(&bytes[..5]), Err(FormatError::Corrupt(_))));
    let newer = Current::new(FORMAT_VERSION + 1, 42).encode();
    assert!(matches!(Current::decode(&newer), Err(FormatError::Unsupported(_))));
}

#[test]
fn manifest_reads_back_and_refuses_damage() {
    let m = Manifest {
        format_version: FORMAT_VERSION,
        generation: 3,
        segments: vec![record(1, 0), record(2, 1)],
        wal_ids: vec![5, 6],
    };
    let bytes = m.encode();
    assert_eq!(Manifest::decode(&bytes).unwrap(), m);
    let mut bad = bytes.clone();
    let last = bad.len() - 1;
    bad[last] ^= 1;
    assert!(matches!(Manifest::decode(&bad), Err(FormatError::Corrupt(_))));
}

#[test]
fn pair_must_agree() {
    let m = Manifest {
        format_version: FORMAT_VERSION,
        generation: 3,
        segments: vec![],
        wal_ids: vec![],
    };
    assert!(verify_pair(&Current::new(FORMAT_VERSION, 3), &m).is_ok());
    assert_eq!(
        text(verify_pair(&Current::new(FORMAT_VERSION, 4), &m).unwrap_err()),
        "corrupt: CURRENT points at generation 4 but manifest is generation 3"
    );
}

#[test]
fn cursor_reads_little_endian() {
    let b = [1u8, 2, 0, 3, 0, 0, 0, 4, 0, 0, 0, 0, 0, 0, 0, 2, 0, 0, 0, 8, 9];
    let mut c = Cursor::new(&b);
    assert_eq!(c.u8().unwrap(), 1);
    assert_eq!(c.u16().unwrap(), 2);
    assert_eq!(c.u32().unwrap(), 3);
    assert_eq!(c.u64().unwrap(), 4);
    assert_eq!(c.remaining(), 6);
    assert_eq!(c.vec().unwrap(), vec![8, 9]);
    assert!(c.is_empty());
    assert!(matches!(c.u8(), Err(FormatError::Corrupt(_))));
}

#[test]
fn frames_come_back_as_appended() {
    let ops = vec![
        Op::Put(b"k".to_vec(), b"v".to_vec()),
        Op::Delete(b"d".to_vec()),
        Op::CreateObject {
            oid: ObjectId([7; 16]),
            lid: LogicalId(1),
            rid: ReplicaId(2),
            pgen: 77,
        },
        Op::PutObject(ReplicaId(2), b"k".to_vec(), b"w".to_vec()),
        Op::DeleteObject(ReplicaId(2), b"x".to_vec()),
    ];
    let mut log = encode_frame(1, &ops).unwrap();
    assert_eq!(&log[..4], b"AKWF");
    let (frame, n) = decode_frame(&log).unwrap();
    assert_eq!(n, log.len());
    assert_eq!(frame, WalFrame { seq: 1, ops: ops.clone() });
    log.extend(encode_frame(2, &ops[..1]).unwrap());
    let (frames, end) = replay_frames(&log).unwrap();
    assert_eq!(frames.len(), 2);
    assert_eq!(end, log.len());
    assert_eq!(
        text(encode_frame(1, &[]).unwrap_err()),
        "invalid: WAL frame with no ops"
    );
}

#[test]
fn torn_tails_are_dropped_and_damage_is_refused() {
    let a = encode_frame(1, &[Op::Delete(b"a".to_vec())]).unwrap();
    let b = encode_frame(2, &[Op::Delete(b"b".to_vec())]).unwrap();
    let mut torn = a.clone();
    torn.extend(&b[..b.len() - 3]);
    let (frames, end) = replay_frames(&torn).unwrap();
    assert_eq!(frames.len(), 1);
    assert_eq!(end, a.len());

    let mut damaged = a.clone();
    damaged[20] ^= 1;
    damaged.extend(&b);
    assert_eq!(
        text(replay_frames(&damaged).unwrap_err()),
        "corrupt: WAL damage at offset 0 with valid frames after"
    );

    let mut backwards = b.clone();
    backwards.extend(&a);
    assert_eq!(
        text(replay_frames(&backwards).unwrap_err()),
        "corrupt: WAL sequence must increase: WalFrame { seq: 1, ops: [Delete([97])] } after 2"
    );
}

#[test]
fn other_versions_and_ops_are_unsupported() {
    let mut f = encode_frame(1, &[Op::Delete(b"a".to_vec())]).unwrap();
    f[4] = 9;
    assert_eq!(
        text(decode_frame(&f).unwrap_err()),
        "corrupt: WAL frame checksum mismatch"
    );
    seal(&mut f);
    assert_eq!(
        text(decode_frame(&f).unwrap_err()),
        "unsupported: WAL frame format version 9 (this build: 1)"
    );
    let mut f = encode_frame(1, &[Op::Delete(b"a".to_vec())]).unwrap();
    f[6] = 2;
    assert_eq!(
        text(decode_frame(&f).unwrap_err()),
        "corrupt: WAL frame checksum mismatch"
    );
    seal(&mut f);
    assert_eq!(
        text(decode_frame(&f).unwrap_err()),
        "unsupported: WAL frame type 2 (this build: 1)"
    );
}

#[test]
fn directory_logs_read_back() {
    let ids = IdentityLog {
        format_version: FORMAT_VERSION,
        generation: 2,
        records: vec![IdentityRecord { oid: ObjectId([1; 16]), lid: LogicalId(5) }],
    };
    assert_eq!(IdentityLog::decode(&ids.encode()).unwrap(), ids);
    let reps = ReplicaLog {
        format_version: FORMAT_VERSION,
        generation: 2,
        records: vec![ReplicaRecord { lid: LogicalId(5), node: NodeId(1), rid: ReplicaId(6) }],
    };
    assert_eq!(ReplicaLog::decode(&reps.encode()).unwrap(), reps);
    let places = PlacementLog {
        format_version: FORMAT_VERSION,
        generation: 2,
        records: vec![
            PlacementRecord { rid: ReplicaId(6), placement: Placement::Memtable { generation: 1 } },
            PlacementRecord { rid: ReplicaId(7), placement: Placement::Retired { generation: 4 } },
        ],
    };
    let bytes = places.encode();
    assert_eq!(PlacementLog::decode(&bytes).unwrap(), places);
    assert_eq!(places.encoded_len(), bytes.len());

    let files = vec![LogFile { generation: 3, bytes: Ok(ids.encode()) }];
    assert_eq!(
        text(load_identity_logs(&files).unwrap_err()),
        "corrupt: IDENTITY-000003.log carries generation 2"
    );
    let files = vec![LogFile { generation: 2, bytes: Err("gone".to_string()) }];
    assert_eq!(
        text(load_replica_logs(&files).unwrap_err()),
        "io: read REPLICA-000002.log: gone"
    );
    let files = vec![LogFile { generation: 2, bytes: Ok(bytes.clone()) }];
    assert_eq!(load_placement_logs(&files).unwrap().len(), 1);
    assert_eq!(orphan_placement_max_generation(&files), 4);
}

#[test]
fn paths_and_listings_name_generations() {
    assert_eq!(identity_log_path("/d", 7), "/d/IDENTITY-000007.log");
    assert_eq!(replica_log_path("/d", 1234567), "/d/REPLICA-1234567.log");
    assert_eq!(placement_log_path("/d", 7), "/d/PLACEMENT-000007.log");
    assert_eq!(placement_log_generation("PLACEMENT-000012.log"), Some(12));
    assert_eq!(placement_log_generation("PLACEMENT-x.log"), None);
    let names = vec![
        "IDENTITY-000009.log".to_string(),
        "IDENTITY-000004.log".to_string(),
        "IDENTITY-000002.log".to_string(),
        "other".to_string(),
    ];
    assert_eq!(orphan_identity_logs(&names, 2), vec![4, 9]);
}

#[test]
fn placements_never_go_back() {
    let mut m: IdMap<u64, Placement> = IdMap::new();
    let r = ReplicaId(1);
    let at = |generation: u64| Placement::Memtable { generation };
    assert_eq!(merge_placement(&mut m, r, at(5)).unwrap(), ApplyOutcome::Applied);
    assert_eq!(merge_placement(&mut m, r, at(5)).unwrap(), ApplyOutcome::Duplicate);
    assert_eq!(merge_placement(&mut m, r, at(4)).unwrap(), ApplyOutcome::Stale);
    assert_eq!(merge_placement(&mut m, r, at(6)).unwrap(), ApplyOutcome::Applied);
    assert_eq!(
        text(merge_placement(&mut m, r, Placement::Retired { generation: 6 }).unwrap_err()),
        "corrupt: placement for replica ReplicaId(1) changed at the same generation 6"
    );
    assert_eq!(m.get(1), Some(at(6)));
}

#[test]
fn locations_are_checked() {
    let loc = PhysicalLocation {
        segment_id: SegmentId(3),
        block_id: BlockId(1),
        entry_offset: 4,
        generation: 9,
    };
    let ids: HashSet<u64> = [3u64].into_iter().collect();
    assert!(validate_segment_location(&loc, &ids, Some(5)).is_ok());
    assert!(validate_segment_location(&loc, &ids, Some(4)).is_err());
    assert!(validate_segment_location(&loc, &ids, None).is_err());
    assert!(validate_segment_location(&loc, &HashSet::new(), Some(5)).is_err());
}

#[test]
fn placement_directory_recovers_the_survivors() {
    let seg = |id: u64, generation: u64| {
        Placement::Segment(PhysicalLocation {
            segment_id: SegmentId(id),
            block_id: BlockId(0),
            entry_offset: 0,
            generation,
        })
    };
    let log = |generation: u64, placement: Placement| PlacementLog {
        format_version: FORMAT_VERSION,
        generation,
        records: vec![PlacementRecord { rid: ReplicaId(1), placement }],
    };
    let only_two = |loc: &PhysicalLocation| {
        if loc.segment_id.0 == 2 {
            Ok(())
        } else {
            Err(FormatError::Corrupt("stale".to_string()))
        }
    };
    let logs = vec![log(1, seg(1, 1)), log(2, seg(2, 2))];
    let d = PlacementDirectory::recover(&logs, only_two).unwrap();
    assert_eq!(d.len(), 1);
    assert_eq!(d.resolve(ReplicaId(1)), Some(&seg(2, 2)));
    assert!(PlacementDirectory::recover(&vec![log(1, seg(1, 1))], only_two).is_err());
}

#[test]
fn checkpoints_read_back_and_prune() {
    let mut ids: IdMap<u128, LogicalId> = IdMap::new();
    ids.insert(9, LogicalId(1));
    ids.insert(2, LogicalId(2));
    let mut reps: IdMap<u64, ReplicaId> = IdMap::new();
    reps.insert(1, ReplicaId(3));
    let mut places: IdMap<u64, Placement> = IdMap::new();
    places.insert(3, Placement::Retired { generation: 8 });
    let c = DirectoryCheckpoint::from_state(4, &ids, &reps, &places);
    assert_eq!(c.identities[0].lid, LogicalId(2));
    let bytes = c.encode();
    assert_eq!(DirectoryCheckpoint::decode(&bytes).unwrap(), c);
    assert!(DirectoryCheckpoint::decode(&bytes[..bytes.len() - 1]).is_err());
    assert_eq!(checkpoint_path("/d", 4), "/d/CHECKPOINT-000004.log");
    let names = vec![
        "CHECKPOINT-000002.log".to_string(),
        "CHECKPOINT-000004.log".to_string(),
        "CHECKPOINT-000009.log".to_string(),
        "IDENTITY-000003.log".to_string(),
        "PLACEMENT-000005.log".to_string(),
    ];
    assert_eq!(newest_checkpoint(&names, 5), Some(4));
    assert_eq!(newest_checkpoint(&names, 1), None);
    assert_eq!(delta_log_generation("REPLICA-000011.log"), Some(11));
    assert_eq!(delta_log_generation("MANIFEST-000011"), None);
    assert!(prune_deltas_before(&names, 4).contains(&3));
    assert!(!prune_deltas_before(&names, 4).contains(&4));
    let file = Some(LogFile { generation: 5, bytes: Ok(bytes.clone()) });
    assert_eq!(
        text(load_newest(&file, "p").unwrap_err()),
        "corrupt: CHECKPOINT-000005.log carries generation 4"
    );
    assert!(load_newest(&None, "p").unwrap().is_none());
    let infos = vec![
        FileInfo { name: "IDENTITY-000003.log".to_string(), size: Some(10) },
        FileInfo { name: "PLACEMENT-000005.log".to_string(), size: Some(7) },
    ];
    assert_eq!(directory_log_bytes(&infos, 4), 7);
    assert_eq!(directory_log_bytes(&infos, 2), 17);
}

#[test]
fn identities_are_kept_apart() {
    let oid = ObjectId::from_bytes([0xab; 16]);
    assert_eq!(oid.to_text(), "abababababababababababababababab");
    assert_eq!(oid.to_debug(), "ObjectId(abababababababababababababababab)");
    assert_eq!(ObjectId::from_number(oid.number()), oid);
    assert_eq!(LogicalId::from_bytes(LogicalId(513).to_bytes()), LogicalId(513));
    assert_eq!(ReplicaId(1).to_bytes(), [1, 0, 0, 0, 0, 0, 0, 0]);
    assert_eq!(SegmentId::from_bytes(SegmentId(77).to_bytes()), SegmentId(77));
    assert_eq!(BlockId::from_bytes(BlockId(77).to_bytes()), BlockId(77));
}

#[test]
fn identities_order_as_their_bytes() {
    let low = ObjectId([0; 16]);
    let mut b = [0u8; 16];
    b[15] = 1;
    let last = ObjectId(b);
    b[0] = 1;
    b[15] = 0;
    let first = ObjectId(b);
    assert!(low < last && last < first && !(first < last) && !(low < low));
    assert!(last.to_bytes() < first.to_bytes());
}

#[test]
fn reports_add_up() {
    let mut r = MigrationReport::begin("/old", "/new");
    let ops = vec![
        Op::Put(b"a".to_vec(), b"1".to_vec()),
        Op::Delete(b"a".to_vec()),
        Op::Put(b"b".to_vec(), b"2".to_vec()),
    ];
    assert!(r.has_room(ops.len()));
    r.add_batch(&ops);
    r.add_batch(&ops);
    let r = r.finish(1, true);
    assert_eq!((r.batches, r.puts, r.deletes, r.keys), (2, 4, 2, 1));
    assert!(r.torn_tail_dropped);
    assert_eq!((r.source.as_str(), r.dest_dir.as_str()), ("/old", "/new"));
    let full = MigrationReport { puts: u64::MAX - 1, ..r };
    assert!(full.has_room(1) && !full.has_room(2));
}
