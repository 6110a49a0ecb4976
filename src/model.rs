//! The mathematical model of a store and of each phase of an upgrade.
//!
//! A phase maps a store to the store it commits, or to the error that aborts
//! it; an aborted phase leaves the store as it was.
use vstd::prelude::*;

use crate::codec::{canonical_key, key_lt, SessionView};
use crate::schema::{
    ops_if, ops_up_to_v6, ops_v7, IndexId, SchemaOp, TableId,
};

verus! {

/// Why an upgrade stopped.
#[derive(Clone, Copy, Debug, PartialEq, Eq, Structural)]
pub enum MigrationError {
    /// The store is at a version above the one requested.
    VersionError { stored: u32, requested: u32 },
    /// A step creates a table that exists.
    TableExists(TableId),
    /// A step or a batch uses a table that does not exist.
    TableMissing(TableId),
    /// A step creates an index that exists.
    IndexExists(IndexId),
    /// A batch adds a record under a key that is taken.
    KeyExists,
    /// A stored record cannot be decoded.
    Decode,
}

impl MigrationError {
    /// Whether the error is a fault of the storage engine rather than of the
    /// stored data.
    pub fn is_engine_fault(&self) -> (r: bool)
        ensures
            r == !(*self == MigrationError::Decode),
    {
        match self {
            MigrationError::Decode => false,
            _ => true,
        }
    }
}

/// A record of the old inbound-session table: its key, and its value as the
/// record codec decodes it (`None` where it cannot be decoded).
pub struct LegacyRecordView {
    pub key: Seq<u8>,
    pub value: Option<SessionView>,
}

/// A record of the new inbound-session table: its key, its session as the
/// record codec decodes it (`None` where it cannot be decoded), and the
/// indexed flag that tells whether it still has to be backed up.
pub struct SessionRecordView {
    pub key: Seq<u8>,
    pub session: Option<SessionView>,
    pub needs_backup: bool,
}

/// A store: its persisted version, its catalog, and the records of the two
/// inbound-session tables. A well-formed store holds each table in
/// ascending order of keys, which is the order in which a batch scans it.
pub struct StoreView {
    pub version: u32,
    pub tables: Set<TableId>,
    pub indexes: Set<IndexId>,
    pub legacy: Seq<LegacyRecordView>,
    pub sessions: Seq<SessionRecordView>,
}

/// Whether some record of `t` is stored under `k`.
pub open spec fn has_key(t: Seq<SessionRecordView>, k: Seq<u8>) -> bool {
    exists|j: int| 0 <= j < t.len() && #[trigger] t[j].key == k
}

/// Whether some record of the old table `t` is stored under `k`.
pub open spec fn has_legacy_key(t: Seq<LegacyRecordView>, k: Seq<u8>) -> bool {
    exists|j: int| 0 <= j < t.len() && #[trigger] t[j].key == k
}

/// Whether no two records of `t` share a key.
pub open spec fn keys_unique(t: Seq<SessionRecordView>) -> bool {
    forall|i: int, j: int|
        0 <= i < t.len() && 0 <= j < t.len() && i != j ==> #[trigger] t[i].key != #[trigger] t[j].key
}

/// Whether the keys of `t` ascend strictly.
pub open spec fn sessions_sorted(t: Seq<SessionRecordView>) -> bool {
    forall|i: int, j: int| 0 <= i < j < t.len() ==> key_lt(#[trigger] t[i].key, #[trigger] t[j].key)
}

/// Whether the keys of `t` ascend strictly.
pub open spec fn legacy_sorted(t: Seq<LegacyRecordView>) -> bool {
    forall|i: int, j: int| 0 <= i < j < t.len() ==> key_lt(#[trigger] t[i].key, #[trigger] t[j].key)
}

/// Where a record under `k` goes in `t`: before the first record whose key
/// is above `k`.
pub open spec fn session_slot(t: Seq<SessionRecordView>, k: Seq<u8>) -> int
    decreases t.len(),
{
    if t.len() == 0 || key_lt(k, t[0].key) {
        0
    } else {
        1 + session_slot(t.drop_first(), k)
    }
}

/// Where a record under `k` goes in `t`: before the first record whose key
/// is above `k`.
pub open spec fn legacy_slot(t: Seq<LegacyRecordView>, k: Seq<u8>) -> int
    decreases t.len(),
{
    if t.len() == 0 || key_lt(k, t[0].key) {
        0
    } else {
        1 + legacy_slot(t.drop_first(), k)
    }
}

/// `t` with `r` written into it at its place in key order.
pub open spec fn insert_session(t: Seq<SessionRecordView>, r: SessionRecordView) -> Seq<
    SessionRecordView,
> {
    t.insert(session_slot(t, r.key), r)
}

/// `t` with `r` written into it at its place in key order.
pub open spec fn insert_legacy(t: Seq<LegacyRecordView>, r: LegacyRecordView) -> Seq<
    LegacyRecordView,
> {
    t.insert(legacy_slot(t, r.key), r)
}

/// Whether every record of `t` decodes and is stored under its canonical key.
pub open spec fn all_canonical(t: Seq<SessionRecordView>) -> bool {
    forall|j: int|
        0 <= j < t.len() ==> (#[trigger] t[j]).session is Some && t[j].key == canonical_key(
            t[j].session->0,
        )
}

impl StoreView {
    /// Each table holds its records in strictly ascending key order, so
    /// never two under one key; only an existing table holds records; an
    /// index exists only on an existing table.
    pub open spec fn wf(self) -> bool {
        &&& sessions_sorted(self.sessions)
        &&& legacy_sorted(self.legacy)
        &&& (self.legacy.len() > 0 ==> self.tables.contains(TableId::InboundGroupSessionsV1))
        &&& (self.sessions.len() > 0 ==> self.tables.contains(TableId::InboundGroupSessionsV2))
        &&& forall|i: IndexId| #[trigger] self.indexes.contains(i) ==> self.tables.contains(i.spec_table())
    }

    /// The store that was never created.
    pub open spec fn absent() -> StoreView {
        StoreView {
            version: 0,
            tables: Set::empty(),
            indexes: Set::empty(),
            legacy: Seq::empty(),
            sessions: Seq::empty(),
        }
    }

    pub open spec fn with_version(self, version: u32) -> StoreView {
        StoreView { version, ..self }
    }
}

/// The store after one structural change, or the error that aborts it. A
/// created table is empty; a dropped table loses its indexes and records.
pub open spec fn apply_op(s: StoreView, op: SchemaOp) -> Result<StoreView, MigrationError> {
    match op {
        SchemaOp::CreateTable(t) => {
            if s.tables.contains(t) {
                Err(MigrationError::TableExists(t))
            } else {
                Ok(
                    StoreView {
                        tables: s.tables.insert(t),
                        legacy: if t == TableId::InboundGroupSessionsV1 {
                            Seq::empty()
                        } else {
                            s.legacy
                        },
                        sessions: if t == TableId::InboundGroupSessionsV2 {
                            Seq::empty()
                        } else {
                            s.sessions
                        },
                        ..s
                    },
                )
            }
        },
        SchemaOp::CreateIndex(i) => {
            if !s.tables.contains(i.spec_table()) {
                Err(MigrationError::TableMissing(i.spec_table()))
            } else if s.indexes.contains(i) {
                Err(MigrationError::IndexExists(i))
            } else {
                Ok(StoreView { indexes: s.indexes.insert(i), ..s })
            }
        },
        SchemaOp::DeleteTable(t) => {
            if !s.tables.contains(t) {
                Err(MigrationError::TableMissing(t))
            } else {
                Ok(
                    StoreView {
                        tables: s.tables.remove(t),
                        indexes: s.indexes.filter(|i: IndexId| i.spec_table() != t),
                        legacy: if t == TableId::InboundGroupSessionsV1 {
                            Seq::empty()
                        } else {
                            s.legacy
                        },
                        sessions: if t == TableId::InboundGroupSessionsV2 {
                            Seq::empty()
                        } else {
                            s.sessions
                        },
                        ..s
                    },
                )
            }
        },
    }
}

/// The store after the changes `ops` in order, or the first error.
pub open spec fn apply_ops(s: StoreView, ops: Seq<SchemaOp>) -> Result<StoreView, MigrationError>
    decreases ops.len(),
{
    if ops.len() == 0 {
        Ok(s)
    } else {
        match apply_ops(s, ops.drop_last()) {
            Ok(s2) => apply_op(s2, ops.last()),
            Err(e) => Err(e),
        }
    }
}

/// Opening the store at `version`, with `ops` as the upgrade transaction
/// that runs when the store is below it. The version is persisted only
/// when the whole transaction commits.
pub open spec fn open_at(s: StoreView, version: u32, ops: Seq<SchemaOp>) -> Result<
    StoreView,
    MigrationError,
> {
    if s.version > version {
        Err(MigrationError::VersionError { stored: s.version, requested: version })
    } else if s.version == version {
        Ok(s)
    } else {
        match apply_ops(s, ops) {
            Ok(s2) => Ok(s2.with_version(version)),
            Err(e) => Err(e),
        }
    }
}

/// Opening the store without a version: a store that does not exist yet is
/// created at version 1 with an empty catalog.
pub open spec fn open_default(s: StoreView) -> StoreView {
    if s.version == 0 {
        s.with_version(1)
    } else {
        s
    }
}

/// The first upgrade transaction: all structural steps up to version 6.
pub open spec fn phase_schema_up_to_v6(s: StoreView) -> Result<StoreView, MigrationError> {
    open_at(
        s,
        6,
        ops_up_to_v6(
            s.tables == Set::<TableId>::empty(),
            s.version as nat,
            s.tables.contains(TableId::OutgoingSecretRequests),
        ),
    )
}

/// A record of the old table in the shape of the new one, under the same key.
pub open spec fn migrated_record(r: LegacyRecordView, v: SessionView) -> SessionRecordView {
    SessionRecordView { key: r.key, session: Some(v), needs_backup: !v.backed_up }
}

/// The new table after the records of `legacy` have been written into `acc`
/// in order, or the first error.
pub open spec fn migrate_records(legacy: Seq<LegacyRecordView>, acc: Seq<SessionRecordView>) -> Result<
    Seq<SessionRecordView>,
    MigrationError,
>
    decreases legacy.len(),
{
    if legacy.len() == 0 {
        Ok(acc)
    } else {
        match legacy[0].value {
            None => Err(MigrationError::Decode),
            Some(v) => {
                if has_key(acc, legacy[0].key) {
                    Err(MigrationError::KeyExists)
                } else {
                    migrate_records(
                        legacy.drop_first(),
                        insert_session(acc, migrated_record(legacy[0], v)),
                    )
                }
            },
        }
    }
}

/// The data migration: one batch that moves every record of the old table
/// into the new one.
pub open spec fn phase_migrate_data(s: StoreView) -> Result<StoreView, MigrationError> {
    if !s.tables.contains(TableId::InboundGroupSessionsV1) {
        Err(MigrationError::TableMissing(TableId::InboundGroupSessionsV1))
    } else if !s.tables.contains(TableId::InboundGroupSessionsV2) {
        Err(MigrationError::TableMissing(TableId::InboundGroupSessionsV2))
    } else {
        match migrate_records(s.legacy, s.sessions) {
            Ok(t) => Ok(StoreView { legacy: Seq::empty(), sessions: t, ..s }),
            Err(e) => Err(e),
        }
    }
}

/// The second upgrade transaction: the drained old table is dropped.
pub open spec fn phase_schema_v7(s: StoreView) -> Result<StoreView, MigrationError> {
    open_at(s, 7, ops_if(s.version < 7, ops_v7()))
}

/// `r` under the key `k`.
pub open spec fn relocated(r: SessionRecordView, k: Seq<u8>) -> SessionRecordView {
    SessionRecordView { key: k, session: r.session, needs_backup: r.needs_backup }
}

/// The key correction over the records `scan`, in order, where `done` holds
/// what the records before them became; the store holds `done` and `scan`. A record under its canonical key
/// stays. Another one leaves its key; it is written under its canonical key
/// unless a record is already there, which then wins.
pub open spec fn fixup_records(scan: Seq<SessionRecordView>, done: Seq<SessionRecordView>) -> Result<
    Seq<SessionRecordView>,
    MigrationError,
>
    decreases scan.len(),
{
    if scan.len() == 0 {
        Ok(done)
    } else {
        match scan[0].session {
            None => Err(MigrationError::Decode),
            Some(v) => {
                let k = canonical_key(v);
                if k == scan[0].key {
                    fixup_records(scan.drop_first(), insert_session(done, scan[0]))
                } else if has_key(done, k) || has_key(scan.drop_first(), k) {
                    fixup_records(scan.drop_first(), done)
                } else {
                    fixup_records(scan.drop_first(), insert_session(done, relocated(scan[0], k)))
                }
            },
        }
    }
}

/// What the key correction does with one record.
#[derive(Clone, Copy, Debug, PartialEq, Eq, Structural)]
pub enum FixupAction {
    /// The record is under its canonical key and stays.
    Keep,
    /// The record leaves its key and is written under its canonical key.
    Relocate,
    /// The record leaves its key; the record already under its canonical
    /// key wins.
    Discard,
}

/// What the key correction does with a record, given whether it is under
/// its canonical key and whether another record holds that key.
pub open spec fn spec_fixup_action(at_canonical: bool, canonical_taken: bool) -> FixupAction {
    if at_canonical {
        FixupAction::Keep
    } else if canonical_taken {
        FixupAction::Discard
    } else {
        FixupAction::Relocate
    }
}

/// What the key correction does with a record, given whether it is under
/// its canonical key and whether another record holds that key.
pub fn fixup_action(at_canonical: bool, canonical_taken: bool) -> (r: FixupAction)
    ensures
        r == spec_fixup_action(at_canonical, canonical_taken),
{
    if at_canonical {
        FixupAction::Keep
    } else if canonical_taken {
        FixupAction::Discard
    } else {
        FixupAction::Relocate
    }
}

/// The key-correction pass: one batch over the new table.
pub open spec fn phase_fix_keys(s: StoreView) -> Result<StoreView, MigrationError> {
    if !s.tables.contains(TableId::InboundGroupSessionsV2) {
        Err(MigrationError::TableMissing(TableId::InboundGroupSessionsV2))
    } else {
        match fixup_records(s.sessions, Seq::empty()) {
            Ok(t) => Ok(StoreView { sessions: t, ..s }),
            Err(e) => Err(e),
        }
    }
}

/// Opening at version 8 without structural change; its commit records that
/// the key correction is done.
pub open spec fn phase_schema_v8(s: StoreView) -> Result<StoreView, MigrationError> {
    open_at(s, 8, Seq::empty())
}

/// One phase of an upgrade; the store is closed and opened again between two.
#[derive(Clone, Copy, Debug, PartialEq, Eq, Structural)]
pub enum Phase {
    SchemaUpToV6,
    MigrateData,
    SchemaV7,
    FixKeys,
    SchemaV8,
    /// Opening the store at the current version, for use.
    OpenCurrent,
}

/// The current version of the store.
pub const CURRENT_VERSION: u32 = 8;

pub open spec fn apply_phase(p: Phase, s: StoreView) -> Result<StoreView, MigrationError> {
    match p {
        Phase::SchemaUpToV6 => phase_schema_up_to_v6(s),
        Phase::MigrateData => phase_migrate_data(s),
        Phase::SchemaV7 => phase_schema_v7(s),
        Phase::FixKeys => phase_fix_keys(s),
        Phase::SchemaV8 => phase_schema_v8(s),
        Phase::OpenCurrent => open_at(s, CURRENT_VERSION, Seq::empty()),
    }
}

/// The phases that an upgrade runs on a store found at `old_version`.
pub open spec fn plan(old_version: u32) -> Seq<Phase> {
    (if old_version < 7 {
        seq![Phase::SchemaUpToV6, Phase::MigrateData, Phase::SchemaV7]
    } else {
        Seq::empty()
    }) + (if old_version < 8 {
        seq![Phase::FixKeys, Phase::SchemaV8]
    } else {
        Seq::empty()
    }) + seq![Phase::OpenCurrent]
}

/// Running `ps` in order: the store that the last committed phase left, and
/// the error of the phase that aborted, if any.
pub open spec fn run_phases(ps: Seq<Phase>, s: StoreView) -> (StoreView, Result<(), MigrationError>)
    decreases ps.len(),
{
    if ps.len() == 0 {
        (s, Ok(()))
    } else {
        match apply_phase(ps[0], s) {
            Ok(s2) => run_phases(ps.drop_first(), s2),
            Err(e) => (s, Err(e)),
        }
    }
}

/// A whole upgrade: the store is opened without a version to learn its
/// version, and the pending phases run.
pub open spec fn upgrade(s: StoreView) -> (StoreView, Result<(), MigrationError>) {
    run_phases(plan(open_default(s).version), open_default(s))
}

/// The phases that an upgrade runs on a store found at `old_version`.
pub fn pending_phases(old_version: u32) -> (r: Vec<Phase>)
    ensures
        r@ == plan(old_version),
{
    let mut r: Vec<Phase> = Vec::new();
    if old_version < 7 {
        r.push(Phase::SchemaUpToV6);
        r.push(Phase::MigrateData);
        r.push(Phase::SchemaV7);
    }
    if old_version < 8 {
        r.push(Phase::FixKeys);
        r.push(Phase::SchemaV8);
    }
    r.push(Phase::OpenCurrent);
    assert(r@ =~= plan(old_version));
    r
}

} // verus!
