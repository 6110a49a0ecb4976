use crypto_store_migrations::codec::{
    encode_key, key_less, keys_equal, InboundSession, KEY_ESCAPE, KEY_SEPARATOR,
};
use crypto_store_migrations::schema::{
    migrate_stores_to_v5, migrate_stores_to_v6, migrate_stores_to_v7, upgrade_ops_for_v7,
    upgrade_ops_up_to_v6, IndexId, SchemaOp, TableId,
};

#[test]
fn table_and_index_names() {
    assert_eq!(TableId::InboundGroupSessionsV1.name(), "inbound_group_sessions");
    assert_eq!(TableId::InboundGroupSessionsV2.name(), "inbound_group_sessions2");
    assert_eq!(TableId::GossipRequests.name(), "gossip_requests");
    assert_eq!(TableId::OutgoingSecretRequests.name(), "outgoing_secret_requests");
    assert_eq!(IndexId::InboundGroupSessionsBackup.key_path(), "needs_backup");
    assert_eq!(IndexId::GossipRequestsUnsent.key_path(), "unsent");
    assert_eq!(IndexId::GossipRequestsByInfo.key_path(), "info");
    assert!(IndexId::GossipRequestsByInfo.is_unique());
    assert!(!IndexId::GossipRequestsUnsent.is_unique());
    assert!(!IndexId::InboundGroupSessionsBackup.is_unique());
    assert_eq!(IndexId::InboundGroupSessionsBackup.table(), TableId::InboundGroupSessionsV2);
}

#[test]
fn step_five_drops_superseded_tables_only_when_present() {
    assert_eq!(migrate_stores_to_v5(false).len(), 3);
    let ops = migrate_stores_to_v5(true);
    assert_eq!(ops.len(), 6);
    assert_eq!(ops[3], SchemaOp::DeleteTable(TableId::OutgoingSecretRequests));
    assert_eq!(ops[5], SchemaOp::DeleteTable(TableId::SecretRequestsByInfo));
}

#[test]
fn step_six_keeps_old_table() {
    assert_eq!(
        migrate_stores_to_v6(),
        vec![
            SchemaOp::CreateTable(TableId::InboundGroupSessionsV2),
            SchemaOp::CreateIndex(IndexId::InboundGroupSessionsBackup),
        ]
    );
    assert_eq!(migrate_stores_to_v7(), vec![SchemaOp::DeleteTable(TableId::InboundGroupSessionsV1)]);
}

#[test]
fn upgrade_steps_by_old_version() {
    assert_eq!(upgrade_ops_up_to_v6(true, 1, false).len(), 21);
    assert_eq!(upgrade_ops_up_to_v6(false, 1, false).len(), 12);
    assert_eq!(upgrade_ops_up_to_v6(false, 5, false), migrate_stores_to_v6());
    assert!(upgrade_ops_up_to_v6(false, 6, false).is_empty());
    assert_eq!(upgrade_ops_for_v7(6), migrate_stores_to_v7());
    assert!(upgrade_ops_for_v7(7).is_empty());
}

#[test]
fn key_encoding_joins_parts() {
    let k = encode_key(TableId::InboundGroupSessionsV2, &b"!r:x".to_vec(), &b"sid".to_vec());
    assert_eq!(k, vec![b'!', b'r', b':', b'x', KEY_SEPARATOR, b's', b'i', b'd']);
    assert!(keys_equal(&k, &k.clone()));
    assert!(!keys_equal(&k, &b"!r:x".to_vec()));
    assert!(!keys_equal(&b"ab".to_vec(), &b"ac".to_vec()));
}

#[test]
fn session_duplicate_keeps_value() {
    let s = InboundSession::new(b"r".to_vec(), b"s".to_vec(), b"p".to_vec(), true);
    let d = s.duplicate();
    assert_eq!(d.room_id, s.room_id);
    assert_eq!(d.pickle, b"p".to_vec());
    assert!(d.backed_up);
}

#[test]
fn room_id_separator_and_escape_bytes_are_escaped() {
    let a = encode_key(TableId::InboundGroupSessionsV2, &vec![KEY_SEPARATOR], &Vec::new());
    let b = encode_key(TableId::InboundGroupSessionsV2, &Vec::new(), &vec![KEY_SEPARATOR]);
    assert_eq!(a, vec![KEY_ESCAPE, KEY_SEPARATOR, KEY_SEPARATOR]);
    assert_eq!(b, vec![KEY_SEPARATOR, KEY_SEPARATOR]);
    assert!(!keys_equal(&a, &b));
    let c = encode_key(TableId::InboundGroupSessionsV2, &vec![b'x', KEY_ESCAPE], &b"s".to_vec());
    assert_eq!(c, vec![b'x', KEY_ESCAPE, KEY_ESCAPE, KEY_SEPARATOR, b's']);
    assert!(key_less(&b"a".to_vec(), &b"ab".to_vec()));
    assert!(key_less(&b"ab".to_vec(), &b"b".to_vec()));
    assert!(!key_less(&b"b".to_vec(), &b"b".to_vec()));
    assert!(!key_less(&b"b".to_vec(), &Vec::new()));
}
