use crypto_store_migrations::codec::{encode_key, InboundSession};
use crypto_store_migrations::migrate::{
    migrate_schema_for_v7, migrate_schema_for_v8, migrate_schema_up_to_v6, open_and_upgrade_db,
    run_phase,
};
use crypto_store_migrations::model::{fixup_action, pending_phases, FixupAction, MigrationError, Phase};
use crypto_store_migrations::schema::{
    migrate_stores_to_v1, migrate_stores_to_v2, migrate_stores_to_v3, migrate_stores_to_v4,
    migrate_stores_to_v5, IndexId, SchemaOp, TableId,
};
use crypto_store_migrations::store::{migrate_record, LegacyRecord, MemoryStore, SessionRecord};

fn session(room: &[u8], id: &[u8], pickle: &[u8], backed_up: bool) -> InboundSession {
    InboundSession::new(room.to_vec(), id.to_vec(), pickle.to_vec(), backed_up)
}

fn v5_store() -> MemoryStore {
    let mut store = MemoryStore::new();
    let mut ops: Vec<SchemaOp> = Vec::new();
    ops.extend(migrate_stores_to_v1());
    ops.extend(migrate_stores_to_v2());
    ops.extend(migrate_stores_to_v3());
    ops.extend(migrate_stores_to_v4());
    ops.extend(migrate_stores_to_v5(false));
    store.open_at(5, &ops).unwrap();
    store
}

fn add_legacy_session(store: &mut MemoryStore, key: Vec<u8>, s: InboundSession) {
    store.add_legacy(LegacyRecord { key, value: Some(s) }).unwrap();
}

fn legacy_key(room: &[u8], id: &[u8]) -> Vec<u8> {
    encode_key(TableId::InboundGroupSessionsV1, &room.to_vec(), &id.to_vec())
}

/// A store at version 7: schema, data migration and the drop of the old table done.
fn v7_store() -> MemoryStore {
    let mut store = MemoryStore::new();
    store.open_default();
    migrate_schema_up_to_v6(&mut store).unwrap();
    store.prepare_data_for_v7().unwrap();
    migrate_schema_for_v7(&mut store).unwrap();
    assert_eq!(store.version(), 7);
    store
}

fn all_sessions(store: &MemoryStore) -> Vec<(Vec<u8>, Vec<u8>, Vec<u8>, bool, bool)> {
    let mut out = Vec::new();
    for i in 0..store.sessions_len() {
        let r = store.session_at(i);
        let s = r.session.as_ref().unwrap();
        out.push((r.key.clone(), s.room_id.clone(), s.session_id.clone(), s.backed_up, r.needs_backup));
    }
    out
}

#[test]
fn v5_sessions_survive_upgrade_with_backup_flags() {
    let room = b"!test:localhost";
    let mut store = v5_store();
    add_legacy_session(&mut store, legacy_key(room, b"backed"), session(room, b"backed", b"p1", true));
    add_legacy_session(&mut store, legacy_key(room, b"pending"), session(room, b"pending", b"p2", false));

    assert_eq!(open_and_upgrade_db(&mut store), Ok(()));
    assert_eq!(store.version(), 8);
    assert!(!store.has_table(TableId::InboundGroupSessionsV1));
    assert!(store.has_table(TableId::InboundGroupSessionsV2));
    assert!(store.has_index(IndexId::InboundGroupSessionsBackup));
    assert_eq!(store.legacy_len(), 0);

    let r = store.get_inbound_group_session(&room.to_vec(), &b"backed".to_vec()).unwrap();
    let s = r.session.as_ref().unwrap();
    assert_eq!(s.session_id, b"backed".to_vec());
    assert_eq!(s.pickle, b"p1".to_vec());
    assert!(s.backed_up);
    assert!(!r.needs_backup);

    let r = store.get_inbound_group_session(&room.to_vec(), &b"pending".to_vec()).unwrap();
    let s = r.session.as_ref().unwrap();
    assert_eq!(s.session_id, b"pending".to_vec());
    assert!(!s.backed_up);
    assert!(r.needs_backup);
}

#[test]
fn fixup_moves_record_from_wrong_key() {
    let mut store = v7_store();
    let wrong = b"deliberately-wrong".to_vec();
    store
        .add_session(SessionRecord {
            key: wrong.clone(),
            session: Some(session(b"!r:x", b"s1", b"p", false)),
            needs_backup: true,
        })
        .unwrap();
    assert_eq!(open_and_upgrade_db(&mut store), Ok(()));
    assert_eq!(store.version(), 8);
    assert!(store.get_session(&wrong).is_none());
    let r = store.get_inbound_group_session(&b"!r:x".to_vec(), &b"s1".to_vec()).unwrap();
    assert_eq!(r.key, encode_key(TableId::InboundGroupSessionsV2, &b"!r:x".to_vec(), &b"s1".to_vec()));
    assert!(r.needs_backup);
    assert_eq!(store.sessions_len(), 1);
}

#[test]
fn upgrade_twice_from_scratch_changes_nothing() {
    let mut store = MemoryStore::new();
    assert_eq!(store.version(), 0);
    assert_eq!(open_and_upgrade_db(&mut store), Ok(()));
    assert_eq!(store.version(), 8);
    store
        .add_session(SessionRecord {
            key: encode_key(TableId::InboundGroupSessionsV2, &b"!a:x".to_vec(), &b"s".to_vec()),
            session: Some(session(b"!a:x", b"s", b"p", true)),
            needs_backup: false,
        })
        .unwrap();
    let before = all_sessions(&store);
    assert_eq!(open_and_upgrade_db(&mut store), Ok(()));
    assert_eq!(store.version(), 8);
    assert_eq!(all_sessions(&store), before);
}

fn seeded_v5_with_stale_keys() -> MemoryStore {
    let mut store = v5_store();
    add_legacy_session(&mut store, b"stale-1".to_vec(), session(b"!a:x", b"s1", b"p1", true));
    add_legacy_session(&mut store, b"stale-2".to_vec(), session(b"!a:x", b"s2", b"p2", false));
    add_legacy_session(&mut store, legacy_key(b"!b:x", b"s3"), session(b"!b:x", b"s3", b"p3", false));
    store
}

#[test]
fn resumed_upgrade_ends_as_uninterrupted_one() {
    let mut reference = seeded_v5_with_stale_keys();
    assert_eq!(open_and_upgrade_db(&mut reference), Ok(()));
    let expected = all_sessions(&reference);

    let phases = [
        Phase::SchemaUpToV6,
        Phase::MigrateData,
        Phase::SchemaV7,
        Phase::FixKeys,
        Phase::SchemaV8,
        Phase::OpenCurrent,
    ];
    for stop in 0..=phases.len() {
        let mut store = seeded_v5_with_stale_keys();
        store.open_default();
        for p in &phases[..stop] {
            assert_eq!(run_phase(&mut store, *p), Ok(()));
        }
        assert_eq!(open_and_upgrade_db(&mut store), Ok(()));
        assert_eq!(store.version(), 8);
        assert_eq!(store.legacy_len(), 0);
        assert!(!store.has_table(TableId::InboundGroupSessionsV1));
        assert_eq!(all_sessions(&store), expected, "stopped after {} phases", stop);
    }
}

#[test]
fn every_session_reachable_by_canonical_key() {
    let mut store = seeded_v5_with_stale_keys();
    assert_eq!(open_and_upgrade_db(&mut store), Ok(()));
    for (room, id) in [(&b"!a:x"[..], &b"s1"[..]), (b"!a:x", b"s2"), (b"!b:x", b"s3")] {
        let r = store.get_inbound_group_session(&room.to_vec(), &id.to_vec()).unwrap();
        assert_eq!(r.session.as_ref().unwrap().session_id, id.to_vec());
    }
    assert!(store.get_session(&b"stale-1".to_vec()).is_none());
    assert!(store.get_session(&b"stale-2".to_vec()).is_none());
}

#[test]
fn no_record_lost_without_collisions() {
    let mut store = seeded_v5_with_stale_keys();
    let before = store.legacy_len();
    assert_eq!(open_and_upgrade_db(&mut store), Ok(()));
    assert_eq!(store.sessions_len(), before);
    assert_eq!(store.sessions_len(), 3);
}

#[test]
fn record_under_canonical_key_wins_collision() {
    let mut store = v7_store();
    let canonical = encode_key(TableId::InboundGroupSessionsV2, &b"!r:x".to_vec(), &b"s".to_vec());
    store
        .add_session(SessionRecord {
            key: b"aaa-stale".to_vec(),
            session: Some(session(b"!r:x", b"s", b"stale-copy", false)),
            needs_backup: true,
        })
        .unwrap();
    store
        .add_session(SessionRecord {
            key: canonical.clone(),
            session: Some(session(b"!r:x", b"s", b"current", true)),
            needs_backup: false,
        })
        .unwrap();
    store
        .add_session(SessionRecord {
            key: b"zzz-stale".to_vec(),
            session: Some(session(b"!r:x", b"s", b"older-copy", false)),
            needs_backup: true,
        })
        .unwrap();
    assert_eq!(store.prepare_data_for_v8(), Ok(()));
    assert_eq!(store.sessions_len(), 1);
    let r = store.get_session(&canonical).unwrap();
    assert_eq!(r.session.as_ref().unwrap().pickle, b"current".to_vec());
    assert!(!r.needs_backup);
    assert_eq!(migrate_schema_for_v8(&mut store), Ok(()));
    assert_eq!(store.version(), 8);
}

#[test]
fn first_stale_record_wins_when_none_is_canonical() {
    let mut store = v7_store();
    for (key, pickle) in [(&b"k1"[..], &b"first"[..]), (b"k2", b"second")] {
        store
            .add_session(SessionRecord {
                key: key.to_vec(),
                session: Some(session(b"!r:x", b"s", pickle, false)),
                needs_backup: true,
            })
            .unwrap();
    }
    assert_eq!(store.prepare_data_for_v8(), Ok(()));
    assert_eq!(store.sessions_len(), 1);
    let r = store.get_inbound_group_session(&b"!r:x".to_vec(), &b"s".to_vec()).unwrap();
    assert_eq!(r.session.as_ref().unwrap().pickle, b"first".to_vec());
}

#[test]
fn undecodable_legacy_record_aborts_and_keeps_data() {
    let mut store = v5_store();
    add_legacy_session(&mut store, legacy_key(b"!a:x", b"ok"), session(b"!a:x", b"ok", b"p", true));
    store.add_legacy(LegacyRecord { key: b"broken".to_vec(), value: None }).unwrap();
    let r = open_and_upgrade_db(&mut store);
    assert_eq!(r, Err(MigrationError::Decode));
    assert!(!r.unwrap_err().is_engine_fault());
    // The schema step to 6 committed; the batch rolled back.
    assert_eq!(store.version(), 6);
    assert_eq!(store.legacy_len(), 2);
    assert_eq!(store.sessions_len(), 0);
    assert!(store.has_table(TableId::InboundGroupSessionsV1));
}

#[test]
fn undecodable_new_record_aborts_fixup() {
    let mut store = v7_store();
    store
        .add_session(SessionRecord { key: b"x".to_vec(), session: None, needs_backup: true })
        .unwrap();
    assert_eq!(open_and_upgrade_db(&mut store), Err(MigrationError::Decode));
    assert_eq!(store.version(), 7);
    assert_eq!(store.sessions_len(), 1);
}

#[test]
fn newer_store_is_refused() {
    let mut store = MemoryStore::new();
    store.open_at(9, &Vec::new()).unwrap();
    let r = open_and_upgrade_db(&mut store);
    assert_eq!(r, Err(MigrationError::VersionError { stored: 9, requested: 8 }));
    assert!(r.unwrap_err().is_engine_fault());
    assert_eq!(store.version(), 9);
}

#[test]
fn store_at_seven_is_refused_by_schema_step_six() {
    let mut store = v7_store();
    assert_eq!(
        migrate_schema_up_to_v6(&mut store),
        Err(MigrationError::VersionError { stored: 7, requested: 6 })
    );
}

#[test]
fn creating_an_existing_table_rolls_back() {
    let mut store = MemoryStore::new();
    let ops = vec![SchemaOp::CreateTable(TableId::Core), SchemaOp::CreateTable(TableId::Core)];
    assert_eq!(store.open_at(1, &ops), Err(MigrationError::TableExists(TableId::Core)));
    assert_eq!(store.version(), 0);
    assert!(!store.has_table(TableId::Core));
    assert!(store.catalog_is_empty());
}

#[test]
fn creating_an_existing_index_fails() {
    let mut store = MemoryStore::new();
    let ops = vec![
        SchemaOp::CreateTable(TableId::GossipRequests),
        SchemaOp::CreateIndex(IndexId::GossipRequestsUnsent),
        SchemaOp::CreateIndex(IndexId::GossipRequestsUnsent),
    ];
    assert_eq!(
        store.open_at(1, &ops),
        Err(MigrationError::IndexExists(IndexId::GossipRequestsUnsent))
    );
    assert!(!store.has_index(IndexId::GossipRequestsUnsent));
}

#[test]
fn index_on_missing_table_fails() {
    let mut store = MemoryStore::new();
    let ops = vec![SchemaOp::CreateIndex(IndexId::InboundGroupSessionsBackup)];
    assert_eq!(
        store.open_at(1, &ops),
        Err(MigrationError::TableMissing(TableId::InboundGroupSessionsV2))
    );
}

#[test]
fn data_migration_needs_both_tables() {
    let mut store = MemoryStore::new();
    assert_eq!(
        store.prepare_data_for_v7(),
        Err(MigrationError::TableMissing(TableId::InboundGroupSessionsV1))
    );
    assert_eq!(
        store.prepare_data_for_v8(),
        Err(MigrationError::TableMissing(TableId::InboundGroupSessionsV2))
    );
    let mut store = v5_store();
    assert_eq!(
        store.prepare_data_for_v7(),
        Err(MigrationError::TableMissing(TableId::InboundGroupSessionsV2))
    );
}

#[test]
fn legacy_key_taken_in_new_table_aborts() {
    let mut store = v5_store();
    store.open_default();
    migrate_schema_up_to_v6(&mut store).unwrap();
    add_legacy_session(&mut store, b"k".to_vec(), session(b"!a:x", b"s", b"p", false));
    store
        .add_session(SessionRecord {
            key: b"k".to_vec(),
            session: Some(session(b"!a:x", b"t", b"q", false)),
            needs_backup: true,
        })
        .unwrap();
    assert_eq!(store.prepare_data_for_v7(), Err(MigrationError::KeyExists));
    assert_eq!(store.legacy_len(), 1);
    assert_eq!(store.sessions_len(), 1);
}

#[test]
fn add_session_refuses_taken_key() {
    let mut store = v7_store();
    let rec = || SessionRecord {
        key: b"k".to_vec(),
        session: Some(session(b"!a:x", b"s", b"p", false)),
        needs_backup: true,
    };
    assert_eq!(store.add_session(rec()), Ok(()));
    assert_eq!(store.add_session(rec()), Err(MigrationError::KeyExists));
    assert_eq!(store.sessions_len(), 1);
}

#[test]
fn schema_after_full_upgrade() {
    let mut store = MemoryStore::new();
    assert_eq!(open_and_upgrade_db(&mut store), Ok(()));
    for t in [
        TableId::Core,
        TableId::Session,
        TableId::OutboundGroupSessions,
        TableId::TrackedUsers,
        TableId::OlmHashes,
        TableId::Devices,
        TableId::Identities,
        TableId::BackupKeys,
        TableId::RoomSettings,
        TableId::DirectWithheldInfo,
        TableId::SecretsInbox,
        TableId::GossipRequests,
        TableId::InboundGroupSessionsV2,
    ] {
        assert!(store.has_table(t), "{:?}", t);
    }
    for t in [
        TableId::InboundGroupSessionsV1,
        TableId::OutgoingSecretRequests,
        TableId::UnsentSecretRequests,
        TableId::SecretRequestsByInfo,
    ] {
        assert!(!store.has_table(t), "{:?}", t);
    }
    assert!(store.has_index(IndexId::GossipRequestsUnsent));
    assert!(store.has_index(IndexId::GossipRequestsByInfo));
    assert!(store.has_index(IndexId::InboundGroupSessionsBackup));
}

#[test]
fn superseded_request_tables_are_dropped() {
    let mut store = MemoryStore::new();
    let mut ops = migrate_stores_to_v1();
    ops.push(SchemaOp::CreateTable(TableId::OutgoingSecretRequests));
    ops.push(SchemaOp::CreateTable(TableId::UnsentSecretRequests));
    ops.push(SchemaOp::CreateTable(TableId::SecretRequestsByInfo));
    store.open_at(1, &ops).unwrap();
    assert_eq!(open_and_upgrade_db(&mut store), Ok(()));
    assert!(!store.has_table(TableId::OutgoingSecretRequests));
    assert!(!store.has_table(TableId::UnsentSecretRequests));
    assert!(!store.has_table(TableId::SecretRequestsByInfo));
    assert!(store.has_table(TableId::GossipRequests));
}

#[test]
fn version_one_store_with_data_loses_old_sessions_at_step_two() {
    let mut store = MemoryStore::new();
    store.open_at(1, &migrate_stores_to_v1()).unwrap();
    add_legacy_session(&mut store, b"k".to_vec(), session(b"!a:x", b"s", b"p", false));
    assert_eq!(open_and_upgrade_db(&mut store), Ok(()));
    assert_eq!(store.sessions_len(), 0);
}

#[test]
fn pending_phases_by_version() {
    let full = vec![
        Phase::SchemaUpToV6,
        Phase::MigrateData,
        Phase::SchemaV7,
        Phase::FixKeys,
        Phase::SchemaV8,
        Phase::OpenCurrent,
    ];
    assert_eq!(pending_phases(0), full);
    assert_eq!(pending_phases(6), full);
    assert_eq!(pending_phases(7), vec![Phase::FixKeys, Phase::SchemaV8, Phase::OpenCurrent]);
    assert_eq!(pending_phases(8), vec![Phase::OpenCurrent]);
    assert_eq!(pending_phases(9), vec![Phase::OpenCurrent]);
}

#[test]
fn add_legacy_refuses_taken_key_and_missing_table() {
    let mut store = MemoryStore::new();
    assert_eq!(
        store.add_legacy(LegacyRecord { key: b"k".to_vec(), value: None }),
        Err(MigrationError::TableMissing(TableId::InboundGroupSessionsV1))
    );
    let mut store = v5_store();
    assert_eq!(store.add_legacy(LegacyRecord { key: b"k".to_vec(), value: None }), Ok(()));
    assert_eq!(
        store.add_legacy(LegacyRecord { key: b"k".to_vec(), value: None }),
        Err(MigrationError::KeyExists)
    );
    assert_eq!(store.legacy_len(), 1);
    assert!(store.legacy_at(0).value.is_none());
}

#[test]
fn stale_record_with_smallest_key_wins_whatever_the_write_order() {
    let mut store = v7_store();
    for (key, pickle) in [(&[2u8][..], &b"under-two"[..]), (&[1u8][..], &b"under-one"[..])] {
        store
            .add_session(SessionRecord {
                key: key.to_vec(),
                session: Some(session(b"!r:x", b"s", pickle, false)),
                needs_backup: true,
            })
            .unwrap();
    }
    // The table is held in key order, whatever the order of writes.
    assert_eq!(store.session_at(0).key, vec![1u8]);
    assert_eq!(store.session_at(1).key, vec![2u8]);
    assert_eq!(store.prepare_data_for_v8(), Ok(()));
    assert_eq!(store.sessions_len(), 1);
    let r = store.get_inbound_group_session(&b"!r:x".to_vec(), &b"s".to_vec()).unwrap();
    assert_eq!(r.session.as_ref().unwrap().pickle, b"under-one".to_vec());
    assert!(store.get_session(&vec![1u8]).is_none());
    assert!(store.get_session(&vec![2u8]).is_none());
}

#[test]
fn sessions_differing_only_around_the_separator_keep_apart() {
    let mut store = v7_store();
    let a = session(&[0x1f], b"", b"a", false);
    let b = session(b"", &[0x1f], b"b", false);
    for s in [a, b] {
        let key = encode_key(TableId::InboundGroupSessionsV2, &s.room_id, &s.session_id);
        store.add_session(SessionRecord { key, session: Some(s), needs_backup: true }).unwrap();
    }
    assert_eq!(open_and_upgrade_db(&mut store), Ok(()));
    assert_eq!(store.sessions_len(), 2);
    let r = store.get_inbound_group_session(&vec![0x1f], &Vec::new()).unwrap();
    assert_eq!(r.session.as_ref().unwrap().pickle, b"a".to_vec());
    let r = store.get_inbound_group_session(&Vec::new(), &vec![0x1f]).unwrap();
    assert_eq!(r.session.as_ref().unwrap().pickle, b"b".to_vec());
}

#[test]
fn legacy_records_are_held_in_key_order() {
    let mut store = v5_store();
    add_legacy_session(&mut store, b"b".to_vec(), session(b"!a:x", b"2", b"p", false));
    add_legacy_session(&mut store, b"a".to_vec(), session(b"!a:x", b"1", b"p", false));
    add_legacy_session(&mut store, b"ab".to_vec(), session(b"!a:x", b"3", b"p", false));
    assert_eq!(store.legacy_at(0).key, b"a".to_vec());
    assert_eq!(store.legacy_at(1).key, b"ab".to_vec());
    assert_eq!(store.legacy_at(2).key, b"b".to_vec());
}

#[test]
fn migrate_record_reshapes_one_record() {
    let rec = LegacyRecord { key: b"k".to_vec(), value: Some(session(b"!a:x", b"s", b"p", true)) };
    let n = migrate_record(&rec).unwrap();
    assert_eq!(n.key, b"k".to_vec());
    assert!(!n.needs_backup);
    assert_eq!(n.session.unwrap().pickle, b"p".to_vec());
    let rec = LegacyRecord { key: b"k".to_vec(), value: Some(session(b"!a:x", b"s", b"p", false)) };
    assert!(migrate_record(&rec).unwrap().needs_backup);
    let rec = LegacyRecord { key: b"k".to_vec(), value: None };
    assert_eq!(migrate_record(&rec).err(), Some(MigrationError::Decode));
}

#[test]
fn fixup_action_per_record() {
    assert_eq!(fixup_action(true, false), FixupAction::Keep);
    assert_eq!(fixup_action(true, true), FixupAction::Keep);
    assert_eq!(fixup_action(false, false), FixupAction::Relocate);
    assert_eq!(fixup_action(false, true), FixupAction::Discard);
}
