//! A store engine held in memory: versioned opens with an atomic upgrade
//! transaction, and atomic batches over the inbound-session tables.
use vstd::prelude::*;

use crate::codec::{copy_bytes, encode_key, key_less, keys_equal, InboundSession, SessionView};
use crate::lemmas::{
    keys_disjoint, lemma_apply_ops_prefix_err, lemma_apply_ops_wf, lemma_fixup_sorted,
    lemma_insert_legacy_sorted, lemma_insert_session, lemma_insert_session_sorted,
};
use crate::model::{
    fixup_action, FixupAction, apply_op, apply_ops, fixup_records, has_key, has_legacy_key, insert_legacy, insert_session,
    legacy_slot, legacy_sorted, migrate_records, migrated_record, open_at, open_default,
    phase_fix_keys, phase_migrate_data, relocated, session_slot, sessions_sorted,
    LegacyRecordView, MigrationError, SessionRecordView, StoreView,
};
use crate::schema::{IndexId, SchemaOp, TableId, INDEX_COUNT, TABLE_COUNT};

verus! {

/// The value of an optional session.
pub open spec fn opt_session_view(o: Option<InboundSession>) -> Option<SessionView> {
    match o {
        Some(s) => Some(s@),
        None => None,
    }
}

/// A record of the old inbound-session table.
#[derive(Debug)]
pub struct LegacyRecord {
    pub key: Vec<u8>,
    /// The session as the record codec decodes it; `None` where it cannot.
    pub value: Option<InboundSession>,
}

impl View for LegacyRecord {
    type V = LegacyRecordView;

    open spec fn view(&self) -> LegacyRecordView {
        LegacyRecordView { key: self.key@, value: opt_session_view(self.value) }
    }
}

/// A record of the new inbound-session table.
#[derive(Debug)]
pub struct SessionRecord {
    pub key: Vec<u8>,
    /// The session as the record codec decodes it; `None` where it cannot.
    pub session: Option<InboundSession>,
    pub needs_backup: bool,
}

impl View for SessionRecord {
    type V = SessionRecordView;

    open spec fn view(&self) -> SessionRecordView {
        SessionRecordView {
            key: self.key@,
            session: opt_session_view(self.session),
            needs_backup: self.needs_backup,
        }
    }
}

fn duplicate_session_opt(o: &Option<InboundSession>) -> (r: Option<InboundSession>)
    ensures
        opt_session_view(r) == opt_session_view(*o),
{
    match o {
        Some(s) => Some(s.duplicate()),
        None => None,
    }
}

impl SessionRecord {
    /// A copy of the record with the same value.
    pub fn duplicate(&self) -> (r: Self)
        ensures
            r@ == self@,
    {
        SessionRecord {
            key: copy_bytes(&self.key),
            session: duplicate_session_opt(&self.session),
            needs_backup: self.needs_backup,
        }
    }
}

/// The values of the records `t`.
pub open spec fn records_view(t: Seq<SessionRecord>) -> Seq<SessionRecordView> {
    t.map_values(|r: SessionRecord| r@)
}

/// The values of the records `t`.
pub open spec fn legacy_view(t: Seq<LegacyRecord>) -> Seq<LegacyRecordView> {
    t.map_values(|r: LegacyRecord| r@)
}

/// The position in `t`, from `start` on, of a record stored under `k`.
fn find_key_from(t: &Vec<SessionRecord>, start: usize, k: &Vec<u8>) -> (r: Option<usize>)
    requires
        start <= t@.len(),
    ensures
        match r {
            Some(j) => start <= j < t@.len() && t@[j as int]@.key == k@,
            None => !has_key(records_view(t@).subrange(start as int, t@.len() as int), k@),
        },
{
    let mut j: usize = start;
    while j < t.len()
        invariant
            start <= j <= t@.len(),
            forall|m: int| start <= m < j ==> (#[trigger] t@[m])@.key != k@,
        decreases t@.len() - j,
    {
        if keys_equal(&t[j].key, k) {
            return Some(j);
        }
        j += 1;
    }
    let ghost v = records_view(t@).subrange(start as int, t@.len() as int);
    assert(!has_key(v, k@)) by {
        if has_key(v, k@) {
            let m = choose|m: int| 0 <= m < v.len() && #[trigger] v[m].key == k@;
            assert(t@[start + m]@.key == k@);
        }
    }
    None
}

/// The position in `t` of a record stored under `k`.
pub fn find_key(t: &Vec<SessionRecord>, k: &Vec<u8>) -> (r: Option<usize>)
    ensures
        match r {
            Some(j) => j < t@.len() && t@[j as int]@.key == k@,
            None => !has_key(records_view(t@), k@),
        },
{
    let r = find_key_from(t, 0, k);
    assert(records_view(t@).subrange(0, t@.len() as int) =~= records_view(t@));
    r
}

/// The position in `t` of a record stored under `k`.
fn find_legacy_key(t: &Vec<LegacyRecord>, k: &Vec<u8>) -> (r: Option<usize>)
    ensures
        match r {
            Some(j) => j < t@.len() && t@[j as int]@.key == k@,
            None => !has_legacy_key(legacy_view(t@), k@),
        },
{
    let mut j: usize = 0;
    while j < t.len()
        invariant
            j <= t@.len(),
            forall|m: int| 0 <= m < j ==> (#[trigger] t@[m])@.key != k@,
        decreases t@.len() - j,
    {
        if keys_equal(&t[j].key, k) {
            return Some(j);
        }
        j += 1;
    }
    let ghost v = legacy_view(t@);
    assert(!has_legacy_key(v, k@)) by {
        if has_legacy_key(v, k@) {
            let m = choose|m: int| 0 <= m < v.len() && #[trigger] v[m].key == k@;
            assert(t@[m]@.key == k@);
        }
    }
    None
}

/// The slot of `k` in `t` in key order.
fn session_slot_of(t: &Vec<SessionRecord>, k: &Vec<u8>) -> (r: usize)
    ensures
        r == session_slot(records_view(t@), k@),
{
    let n = t.len();
    let ghost v = records_view(t@);
    let mut i: usize = 0;
    assert(v.subrange(0, n as int) =~= v);
    while i < n
        invariant
            n == t@.len(),
            v == records_view(t@),
            i <= n,
            session_slot(v, k@) == i + session_slot(v.subrange(i as int, n as int), k@),
        decreases n - i,
    {
        let ghost rest = v.subrange(i as int, n as int);
        assert(rest[0] == t@[i as int]@);
        if key_less(k, &t[i].key) {
            return i;
        }
        assert(rest.drop_first() =~= v.subrange(i as int + 1, n as int));
        i += 1;
    }
    i
}

/// The slot of `k` in `t` in key order.
fn legacy_slot_of(t: &Vec<LegacyRecord>, k: &Vec<u8>) -> (r: usize)
    ensures
        r == legacy_slot(legacy_view(t@), k@),
{
    let n = t.len();
    let ghost v = legacy_view(t@);
    let mut i: usize = 0;
    assert(v.subrange(0, n as int) =~= v);
    while i < n
        invariant
            n == t@.len(),
            v == legacy_view(t@),
            i <= n,
            legacy_slot(v, k@) == i + legacy_slot(v.subrange(i as int, n as int), k@),
        decreases n - i,
    {
        let ghost rest = v.subrange(i as int, n as int);
        assert(rest[0] == t@[i as int]@);
        if key_less(k, &t[i].key) {
            return i;
        }
        assert(rest.drop_first() =~= v.subrange(i as int + 1, n as int));
        i += 1;
    }
    i
}

/// Writes `rec` into `t` at its place in key order.
fn insert_record(t: &mut Vec<SessionRecord>, rec: SessionRecord)
    ensures
        records_view(final(t)@) == insert_session(records_view(old(t)@), rec@),
{
    let p = session_slot_of(t, &rec.key);
    let ghost before = t@;
    let ghost rv = rec@;
    proof {
        lemma_insert_session(records_view(before), rv);
    }
    t.insert(p, rec);
    proof {
        before.insert_ensures(p as int, t@[p as int]);
    }
    assert(records_view(t@) =~= insert_session(records_view(before), rv));
}

/// Writes `rec` into `t` at its place in key order.
fn insert_legacy_record(t: &mut Vec<LegacyRecord>, rec: LegacyRecord)
    ensures
        legacy_view(final(t)@) == insert_legacy(legacy_view(old(t)@), rec@),
{
    let p = legacy_slot_of(t, &rec.key);
    let ghost before = t@;
    let ghost rv = rec@;
    proof {
        crate::lemmas::lemma_legacy_slot(legacy_view(before), rv.key);
        legacy_view(before).insert_ensures(p as int, rv);
    }
    t.insert(p, rec);
    proof {
        before.insert_ensures(p as int, t@[p as int]);
    }
    assert(legacy_view(t@) =~= insert_legacy(legacy_view(before), rv));
}

/// A copy of the records `t`.
fn copy_records(t: &Vec<SessionRecord>) -> (r: Vec<SessionRecord>)
    ensures
        records_view(r@) == records_view(t@),
{
    let mut r: Vec<SessionRecord> = Vec::new();
    let mut i: usize = 0;
    while i < t.len()
        invariant
            i <= t@.len(),
            records_view(r@) == records_view(t@).subrange(0, i as int),
        decreases t@.len() - i,
    {
        let c = t[i].duplicate();
        let ghost before = r@;
        r.push(c);
        assert(r@ == before.push(c));
        assert(records_view(r@) =~= records_view(before).push(t@[i as int]@));
        i += 1;
        assert(records_view(r@) =~= records_view(t@).subrange(0, i as int));
    }
    assert(records_view(t@).subrange(0, t@.len() as int) =~= records_view(t@));
    r
}

/// The record of the old table `rec` in the shape of the new table, under
/// the same key: its session, with the backup flag set where the session
/// is not backed up. Fails where the value cannot be decoded.
pub fn migrate_record(rec: &LegacyRecord) -> (r: Result<SessionRecord, MigrationError>)
    ensures
        match rec@.value {
            None => r == Err::<SessionRecord, MigrationError>(MigrationError::Decode),
            Some(v) => r matches Ok(n) && n@ == migrated_record(rec@, v),
        },
{
    match &rec.value {
        None => Err(MigrationError::Decode),
        Some(v) => Ok(
            SessionRecord {
                key: copy_bytes(&rec.key),
                session: Some(v.duplicate()),
                needs_backup: !v.backed_up,
            },
        ),
    }
}

/// A store held in memory.
pub struct MemoryStore {
    version: u32,
    /// Which tables exist, by ordinal.
    tables: Vec<bool>,
    /// Which indexes exist, by ordinal.
    indexes: Vec<bool>,
    legacy: Vec<LegacyRecord>,
    sessions: Vec<SessionRecord>,
}

/// The catalog of a store while an upgrade transaction runs: its tables and
/// indexes, and whether each inbound-session table has been emptied.
struct Staged {
    tables: Vec<bool>,
    indexes: Vec<bool>,
    clear_legacy: bool,
    clear_sessions: bool,
}

spec fn table_set(v: Seq<bool>) -> Set<TableId> {
    Set::new(|t: TableId| v[t.spec_ordinal() as int])
}

spec fn index_set(v: Seq<bool>) -> Set<IndexId> {
    Set::new(|i: IndexId| v[i.spec_ordinal() as int])
}

/// The store `s` with the catalog of `st`.
spec fn staged_view(st: Staged, s: StoreView) -> StoreView {
    StoreView {
        version: s.version,
        tables: table_set(st.tables@),
        indexes: index_set(st.indexes@),
        legacy: if st.clear_legacy {
            Seq::empty()
        } else {
            s.legacy
        },
        sessions: if st.clear_sessions {
            Seq::empty()
        } else {
            s.sessions
        },
    }
}

/// The tables of the catalog, by ordinal.
spec fn table_of_ordinal(n: int) -> TableId {
    if n == 0 {
        TableId::Core
    } else if n == 1 {
        TableId::Session
    } else if n == 2 {
        TableId::InboundGroupSessionsV1
    } else if n == 3 {
        TableId::OutboundGroupSessions
    } else if n == 4 {
        TableId::TrackedUsers
    } else if n == 5 {
        TableId::OlmHashes
    } else if n == 6 {
        TableId::Devices
    } else if n == 7 {
        TableId::Identities
    } else if n == 8 {
        TableId::BackupKeys
    } else if n == 9 {
        TableId::RoomSettings
    } else if n == 10 {
        TableId::DirectWithheldInfo
    } else if n == 11 {
        TableId::SecretsInbox
    } else if n == 12 {
        TableId::GossipRequests
    } else if n == 13 {
        TableId::InboundGroupSessionsV2
    } else if n == 14 {
        TableId::OutgoingSecretRequests
    } else if n == 15 {
        TableId::UnsentSecretRequests
    } else {
        TableId::SecretRequestsByInfo
    }
}

proof fn lemma_table_of_ordinal(n: int)
    requires
        0 <= n < TABLE_COUNT,
    ensures
        table_of_ordinal(n).spec_ordinal() == n,
{
}

fn stage_op(st: &mut Staged, op: SchemaOp, Ghost(s): Ghost<StoreView>) -> (r: Result<(), MigrationError>)
    requires
        old(st).tables@.len() == TABLE_COUNT,
        old(st).indexes@.len() == INDEX_COUNT,
    ensures
        final(st).tables@.len() == TABLE_COUNT,
        final(st).indexes@.len() == INDEX_COUNT,
        match apply_op(staged_view(*old(st), s), op) {
            Ok(s2) => r is Ok && staged_view(*final(st), s) == s2,
            Err(e) => r == Err::<(), MigrationError>(e),
        },
{
    let ghost before = staged_view(*st, s);
    match op {
        SchemaOp::CreateTable(t) => {
            let o = t.ordinal();
            if st.tables[o] {
                return Err(MigrationError::TableExists(t));
            }
            st.tables.set(o, true);
            if o == 2 {
                st.clear_legacy = true;
            }
            if o == 13 {
                st.clear_sessions = true;
            }
            assert(table_set(st.tables@) =~= before.tables.insert(t));
        },
        SchemaOp::CreateIndex(i) => {
            let t = i.table();
            if !st.tables[t.ordinal()] {
                return Err(MigrationError::TableMissing(t));
            }
            let o = i.ordinal();
            if st.indexes[o] {
                return Err(MigrationError::IndexExists(i));
            }
            st.indexes.set(o, true);
            assert(index_set(st.indexes@) =~= before.indexes.insert(i));
        },
        SchemaOp::DeleteTable(t) => {
            let o = t.ordinal();
            if !st.tables[o] {
                return Err(MigrationError::TableMissing(t));
            }
            st.tables.set(o, false);
            if o == 2 {
                st.clear_legacy = true;
            }
            if o == 13 {
                st.clear_sessions = true;
            }
            if o == 12 {
                st.indexes.set(0, false);
                st.indexes.set(1, false);
            }
            if o == 13 {
                st.indexes.set(2, false);
            }
            assert(table_set(st.tables@) =~= before.tables.remove(t));
            assert(index_set(st.indexes@) =~= before.indexes.filter(
                |i: IndexId| i.spec_table() != t,
            ));
        },
    }
    Ok(())
}

impl View for MemoryStore {
    type V = StoreView;

    closed spec fn view(&self) -> StoreView {
        StoreView {
            version: self.version,
            tables: table_set(self.tables@),
            indexes: index_set(self.indexes@),
            legacy: legacy_view(self.legacy@),
            sessions: records_view(self.sessions@),
        }
    }
}

impl MemoryStore {
    /// The store is well formed: its model holds no two records under one key.
    pub closed spec fn wf(&self) -> bool {
        &&& self.tables@.len() == TABLE_COUNT
        &&& self.indexes@.len() == INDEX_COUNT
        &&& self@.wf()
    }

    /// The model of a well-formed store is well formed.
    pub proof fn lemma_wf(&self)
        requires
            self.wf(),
        ensures
            self@.wf(),
    {
    }

    /// A store that has never been opened.
    pub fn new() -> (r: Self)
        ensures
            r.wf(),
            r@ == StoreView::absent(),
    {
        let r = MemoryStore {
            version: 0,
            tables: vec![false; TABLE_COUNT],
            indexes: vec![false; INDEX_COUNT],
            legacy: Vec::new(),
            sessions: Vec::new(),
        };
        assert(r@.tables =~= Set::<TableId>::empty());
        assert(r@.indexes =~= Set::<IndexId>::empty());
        assert(r@.legacy =~= Seq::<LegacyRecordView>::empty());
        assert(r@.sessions =~= Seq::<SessionRecordView>::empty());
        r
    }

    pub fn version(&self) -> (r: u32)
        ensures
            r == self@.version,
    {
        self.version
    }

    pub fn has_table(&self, t: TableId) -> (r: bool)
        requires
            self.wf(),
        ensures
            r == self@.tables.contains(t),
    {
        self.tables[t.ordinal()]
    }

    pub fn has_index(&self, i: IndexId) -> (r: bool)
        requires
            self.wf(),
        ensures
            r == self@.indexes.contains(i),
    {
        self.indexes[i.ordinal()]
    }

    /// Whether the catalog holds no table.
    pub fn catalog_is_empty(&self) -> (r: bool)
        requires
            self.wf(),
        ensures
            r == (self@.tables == Set::<TableId>::empty()),
    {
        let mut j: usize = 0;
        while j < TABLE_COUNT
            invariant
                self.wf(),
                j <= TABLE_COUNT,
                forall|m: int| 0 <= m < j ==> !self.tables@[m],
            decreases TABLE_COUNT - j,
        {
            if self.tables[j] {
                proof {
                    lemma_table_of_ordinal(j as int);
                    assert(self@.tables.contains(table_of_ordinal(j as int)));
                }
                return false;
            }
            j += 1;
        }
        assert(self@.tables =~= Set::<TableId>::empty());
        true
    }

    pub fn legacy_len(&self) -> (r: usize)
        ensures
            r == self@.legacy.len(),
    {
        self.legacy.len()
    }

    pub fn sessions_len(&self) -> (r: usize)
        ensures
            r == self@.sessions.len(),
    {
        self.sessions.len()
    }

    pub fn legacy_at(&self, i: usize) -> (r: &LegacyRecord)
        requires
            i < self@.legacy.len(),
        ensures
            r@ == self@.legacy[i as int],
    {
        &self.legacy[i]
    }

    pub fn session_at(&self, i: usize) -> (r: &SessionRecord)
        requires
            i < self@.sessions.len(),
        ensures
            r@ == self@.sessions[i as int],
    {
        &self.sessions[i]
    }

    /// The record of the new inbound-session table stored under `key`.
    pub fn get_session(&self, key: &Vec<u8>) -> (r: Option<&SessionRecord>)
        ensures
            r is Some == has_key(self@.sessions, key@),
            r matches Some(rec) ==> rec@.key == key@ && self@.sessions.contains(rec@),
    {
        match find_key(&self.sessions, key) {
            Some(j) => {
                assert(self@.sessions[j as int] == self.sessions@[j as int]@);
                Some(&self.sessions[j])
            },
            None => None,
        }
    }

    /// The session with the logical key `(room_id, session_id)`, looked up
    /// under its canonical key.
    pub fn get_inbound_group_session(&self, room_id: &Vec<u8>, session_id: &Vec<u8>) -> (r: Option<
        &SessionRecord,
    >)
        ensures
            r is Some == has_key(
                self@.sessions,
                crate::codec::spec_encode_key(TableId::InboundGroupSessionsV2, room_id@, session_id@),
            ),
            r matches Some(rec) ==> rec@.key == crate::codec::spec_encode_key(
                TableId::InboundGroupSessionsV2,
                room_id@,
                session_id@,
            ) && self@.sessions.contains(rec@),
    {
        let k = encode_key(TableId::InboundGroupSessionsV2, room_id, session_id);
        self.get_session(&k)
    }

    /// Opens the store without a version, creating it at version 1 if it
    /// does not exist.
    pub fn open_default(&mut self)
        requires
            old(self).wf(),
        ensures
            final(self).wf(),
            final(self)@ == open_default(old(self)@),
    {
        let ghost before = self@;
        if self.version == 0 {
            self.version = 1;
        }
        assert(self@ == open_default(before));
        assert(self@.indexes == before.indexes && self@.tables == before.tables);
    }

    /// Opens the store at `version`. Where the store is below it, `ops` run
    /// as one upgrade transaction: either all of them commit together with
    /// the new version, or nothing changes.
    pub fn open_at(&mut self, version: u32, ops: &Vec<SchemaOp>) -> (r: Result<(), MigrationError>)
        requires
            old(self).wf(),
        ensures
            final(self).wf(),
            match open_at(old(self)@, version, ops@) {
                Ok(s2) => r is Ok && final(self)@ == s2,
                Err(e) => r == Err::<(), MigrationError>(e) && final(self)@ == old(self)@,
            },
    {
        if self.version > version {
            return Err(MigrationError::VersionError { stored: self.version, requested: version });
        }
        if self.version == version {
            return Ok(());
        }
        let ghost s = self@;
        let mut st = Staged {
            tables: self.tables.clone(),
            indexes: self.indexes.clone(),
            clear_legacy: false,
            clear_sessions: false,
        };
        assert(st.tables@ =~= self.tables@);
        assert(st.indexes@ =~= self.indexes@);
        assert(staged_view(st, s) =~= s);
        assert(ops@.subrange(0, 0) =~= Seq::<SchemaOp>::empty());
        let mut i: usize = 0;
        while i < ops.len()
            invariant
                self.wf(),
                self@ == s,
                s.version < version,
                i <= ops@.len(),
                st.tables@.len() == TABLE_COUNT,
                st.indexes@.len() == INDEX_COUNT,
                apply_ops(s, ops@.subrange(0, i as int)) == Ok::<StoreView, MigrationError>(
                    staged_view(st, s),
                ),
            decreases ops@.len() - i,
        {
            let ghost prefix = ops@.subrange(0, i as int + 1);
            assert(prefix.drop_last() =~= ops@.subrange(0, i as int));
            assert(prefix.last() == ops@[i as int]);
            let ghost sv = staged_view(st, s);
            assert(apply_ops(s, prefix) == apply_op(sv, ops@[i as int]));
            match stage_op(&mut st, ops[i], Ghost(s)) {
                Ok(()) => {},
                Err(e) => {
                    proof {
                        lemma_apply_ops_prefix_err(s, ops@, i as int + 1, e);
                    }
                    return Err(e);
                },
            }
            i += 1;
        }
        assert(ops@.subrange(0, ops@.len() as int) =~= ops@);
        self.tables = st.tables;
        self.indexes = st.indexes;
        if st.clear_legacy {
            self.legacy = Vec::new();
        }
        if st.clear_sessions {
            self.sessions = Vec::new();
        }
        self.version = version;
        proof {
            lemma_apply_ops_wf(s, ops@);
        }
        assert(self@.legacy =~= staged_view(st, s).legacy);
        assert(self@.sessions =~= staged_view(st, s).sessions);
        assert(self@ =~= staged_view(st, s).with_version(version));
        Ok(())
    }

    /// Writes a record into the old inbound-session table, unless its key is
    /// taken.
    pub fn add_legacy(&mut self, rec: LegacyRecord) -> (r: Result<(), MigrationError>)
        requires
            old(self).wf(),
        ensures
            final(self).wf(),
            !old(self)@.tables.contains(TableId::InboundGroupSessionsV1) ==> r == Err::<
                (),
                MigrationError,
            >(MigrationError::TableMissing(TableId::InboundGroupSessionsV1)) && final(self)@ == old(
                self,
            )@,
            old(self)@.tables.contains(TableId::InboundGroupSessionsV1) && has_legacy_key(
                old(self)@.legacy,
                rec@.key,
            ) ==> r == Err::<(), MigrationError>(MigrationError::KeyExists) && final(self)@ == old(
                self,
            )@,
            old(self)@.tables.contains(TableId::InboundGroupSessionsV1) && !has_legacy_key(
                old(self)@.legacy,
                rec@.key,
            ) ==> r is Ok && final(self)@ == (StoreView {
                legacy: insert_legacy(old(self)@.legacy, rec@),
                ..old(self)@
            }),
    {
        if !self.has_table(TableId::InboundGroupSessionsV1) {
            return Err(MigrationError::TableMissing(TableId::InboundGroupSessionsV1));
        }
        match find_legacy_key(&self.legacy, &rec.key) {
            Some(j) => {
                assert(self@.legacy[j as int].key == rec@.key);
                return Err(MigrationError::KeyExists);
            },
            None => {},
        }
        let ghost before = self@;
        proof {
            lemma_insert_legacy_sorted(before.legacy, rec@);
        }
        insert_legacy_record(&mut self.legacy, rec);
        assert(self@.sessions =~= before.sessions);
        Ok(())
    }

    /// Writes a record into the new inbound-session table, unless its key
    /// is taken.
    pub fn add_session(&mut self, rec: SessionRecord) -> (r: Result<(), MigrationError>)
        requires
            old(self).wf(),
        ensures
            final(self).wf(),
            !old(self)@.tables.contains(TableId::InboundGroupSessionsV2) ==> r == Err::<
                (),
                MigrationError,
            >(MigrationError::TableMissing(TableId::InboundGroupSessionsV2)) && final(self)@ == old(
                self,
            )@,
            old(self)@.tables.contains(TableId::InboundGroupSessionsV2) && has_key(
                old(self)@.sessions,
                rec@.key,
            ) ==> r == Err::<(), MigrationError>(MigrationError::KeyExists) && final(self)@ == old(
                self,
            )@,
            old(self)@.tables.contains(TableId::InboundGroupSessionsV2) && !has_key(
                old(self)@.sessions,
                rec@.key,
            ) ==> r is Ok && final(self)@ == (StoreView {
                sessions: insert_session(old(self)@.sessions, rec@),
                ..old(self)@
            }),
    {
        if !self.has_table(TableId::InboundGroupSessionsV2) {
            return Err(MigrationError::TableMissing(TableId::InboundGroupSessionsV2));
        }
        match find_key(&self.sessions, &rec.key) {
            Some(j) => {
                assert(self@.sessions[j as int].key == rec@.key);
                return Err(MigrationError::KeyExists);
            },
            None => {},
        }
        let ghost before = self@;
        proof {
            lemma_insert_session_sorted(before.sessions, rec@);
        }
        insert_record(&mut self.sessions, rec);
        assert(self@.legacy =~= before.legacy);
        Ok(())
    }
}

impl MemoryStore {
    /// The data migration: in one batch, every record of the old
    /// inbound-session table, in key order, is decoded and written to the
    /// new table under the same key with its backup flag, and removed from
    /// the old table. The batch commits whole or not at all.
    pub fn prepare_data_for_v7(&mut self) -> (r: Result<(), MigrationError>)
        requires
            old(self).wf(),
        ensures
            final(self).wf(),
            match phase_migrate_data(old(self)@) {
                Ok(s2) => r is Ok && final(self)@ == s2,
                Err(e) => r == Err::<(), MigrationError>(e) && final(self)@ == old(self)@,
            },
    {
        if !self.has_table(TableId::InboundGroupSessionsV1) {
            return Err(MigrationError::TableMissing(TableId::InboundGroupSessionsV1));
        }
        if !self.has_table(TableId::InboundGroupSessionsV2) {
            return Err(MigrationError::TableMissing(TableId::InboundGroupSessionsV2));
        }
        let ghost s = self@;
        let mut acc = copy_records(&self.sessions);
        let n = self.legacy.len();
        assert(s.legacy.subrange(0, n as int) =~= s.legacy);
        let mut i: usize = 0;
        while i < n
            invariant
                self.wf(),
                self@ == s,
                s.wf(),
                s.tables.contains(TableId::InboundGroupSessionsV1),
                s.tables.contains(TableId::InboundGroupSessionsV2),
                n == s.legacy.len(),
                i <= n,
                sessions_sorted(records_view(acc@)),
                migrate_records(s.legacy, s.sessions) == migrate_records(
                    s.legacy.subrange(i as int, n as int),
                    records_view(acc@),
                ),
            decreases n - i,
        {
            let rec = &self.legacy[i];
            let ghost a = records_view(acc@);
            let ghost scan = s.legacy.subrange(i as int, n as int);
            assert(scan[0] == rec@);
            assert(scan.drop_first() =~= s.legacy.subrange(i as int + 1, n as int));
            let nr = match migrate_record(rec) {
                Ok(nr) => nr,
                Err(e) => {
                    return Err(e);
                },
            };
            match find_key(&acc, &nr.key) {
                Some(j) => {
                    assert(a[j as int].key == rec@.key);
                    return Err(MigrationError::KeyExists);
                },
                None => {},
            }
            proof {
                lemma_insert_session_sorted(a, nr@);
            }
            insert_record(&mut acc, nr);
            i += 1;
        }
        assert(s.legacy.subrange(n as int, n as int) =~= Seq::<LegacyRecordView>::empty());
        self.legacy = Vec::new();
        self.sessions = acc;
        assert(self@.legacy =~= Seq::<LegacyRecordView>::empty());
        assert(legacy_sorted(self@.legacy));
        assert(self@ =~= (StoreView {
            legacy: Seq::empty(),
            sessions: self@.sessions,
            ..s
        }));
        Ok(())
    }

    /// The key correction: in one batch, every record of the new
    /// inbound-session table, in key order, is decoded and its canonical key
    /// computed. A record under another key is removed from there, and
    /// written under its canonical key unless a record is already stored
    /// there, which wins. The batch commits whole or not at all.
    pub fn prepare_data_for_v8(&mut self) -> (r: Result<(), MigrationError>)
        requires
            old(self).wf(),
        ensures
            final(self).wf(),
            match phase_fix_keys(old(self)@) {
                Ok(s2) => r is Ok && final(self)@ == s2,
                Err(e) => r == Err::<(), MigrationError>(e) && final(self)@ == old(self)@,
            },
    {
        if !self.has_table(TableId::InboundGroupSessionsV2) {
            return Err(MigrationError::TableMissing(TableId::InboundGroupSessionsV2));
        }
        let ghost s = self@;
        let mut done: Vec<SessionRecord> = Vec::new();
        let n = self.sessions.len();
        assert(records_view(done@) =~= Seq::<SessionRecordView>::empty());
        assert(s.sessions.subrange(0, n as int) =~= s.sessions);
        let mut i: usize = 0;
        while i < n
            invariant
                self.wf(),
                self@ == s,
                s.tables.contains(TableId::InboundGroupSessionsV2),
                n == s.sessions.len(),
                i <= n,
                fixup_records(s.sessions, Seq::empty()) == fixup_records(
                    s.sessions.subrange(i as int, n as int),
                    records_view(done@),
                ),
            decreases n - i,
        {
            let rec = &self.sessions[i];
            let ghost d = records_view(done@);
            let ghost scan = s.sessions.subrange(i as int, n as int);
            assert(scan[0] == rec@);
            assert(scan.drop_first() =~= s.sessions.subrange(i as int + 1, n as int));
            match &rec.session {
                None => {
                    return Err(MigrationError::Decode);
                },
                Some(v) => {
                    let k = encode_key(TableId::InboundGroupSessionsV2, &v.room_id, &v.session_id);
                    let same = keys_equal(&k, &rec.key);
                    let taken = if same {
                        false
                    } else {
                        match find_key(&done, &k) {
                            Some(j) => {
                                assert(d[j as int].key == k@);
                                true
                            },
                            None => match find_key_from(&self.sessions, i + 1, &k) {
                                Some(j) => {
                                    assert(scan.drop_first()[j - i - 1].key == k@);
                                    true
                                },
                                None => false,
                            },
                        }
                    };
                    match fixup_action(same, taken) {
                        FixupAction::Keep => {
                            insert_record(&mut done, rec.duplicate());
                        },
                        FixupAction::Relocate => {
                            let nr = SessionRecord {
                                key: k,
                                session: Some(v.duplicate()),
                                needs_backup: rec.needs_backup,
                            };
                            assert(nr@ == relocated(rec@, nr@.key));
                            insert_record(&mut done, nr);
                        },
                        FixupAction::Discard => {},
                    }
                },
            }
            i += 1;
        }
        assert(s.sessions.subrange(n as int, n as int) =~= Seq::<SessionRecordView>::empty());
        proof {
            assert(sessions_sorted(Seq::<SessionRecordView>::empty()));
            assert(keys_disjoint(Seq::<SessionRecordView>::empty(), s.sessions));
            lemma_fixup_sorted(s.sessions, Seq::empty());
        }
        self.sessions = done;
        assert(self@ =~= (StoreView { sessions: records_view(done@), ..s }));
        Ok(())
    }
}

} // verus!
