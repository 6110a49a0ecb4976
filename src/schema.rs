//! The catalog of tables and indexes, and the structural step of each
//! schema version.
use vstd::prelude::*;

verus! {

/// A table of the store.
#[derive(Clone, Copy, Debug, PartialEq, Eq, Structural)]
pub enum TableId {
    Core,
    Session,
    /// The first layout of inbound group sessions, replaced at version 7.
    InboundGroupSessionsV1,
    OutboundGroupSessions,
    TrackedUsers,
    OlmHashes,
    Devices,
    Identities,
    BackupKeys,
    RoomSettings,
    DirectWithheldInfo,
    SecretsInbox,
    GossipRequests,
    /// The current layout of inbound group sessions, created at version 6.
    InboundGroupSessionsV2,
    /// Superseded by `GossipRequests` at version 5.
    OutgoingSecretRequests,
    /// Superseded by `GossipRequests` at version 5.
    UnsentSecretRequests,
    /// Superseded by `GossipRequests` at version 5.
    SecretRequestsByInfo,
}

/// The number of tables that `TableId` names.
pub const TABLE_COUNT: usize = 17;

impl TableId {
    /// The position of the table in the catalog's presence vector.
    pub open spec fn spec_ordinal(self) -> nat {
        match self {
            TableId::Core => 0,
            TableId::Session => 1,
            TableId::InboundGroupSessionsV1 => 2,
            TableId::OutboundGroupSessions => 3,
            TableId::TrackedUsers => 4,
            TableId::OlmHashes => 5,
            TableId::Devices => 6,
            TableId::Identities => 7,
            TableId::BackupKeys => 8,
            TableId::RoomSettings => 9,
            TableId::DirectWithheldInfo => 10,
            TableId::SecretsInbox => 11,
            TableId::GossipRequests => 12,
            TableId::InboundGroupSessionsV2 => 13,
            TableId::OutgoingSecretRequests => 14,
            TableId::UnsentSecretRequests => 15,
            TableId::SecretRequestsByInfo => 16,
        }
    }

    pub fn ordinal(&self) -> (r: usize)
        ensures
            r == self.spec_ordinal(),
            r < TABLE_COUNT,
    {
        match self {
            TableId::Core => 0,
            TableId::Session => 1,
            TableId::InboundGroupSessionsV1 => 2,
            TableId::OutboundGroupSessions => 3,
            TableId::TrackedUsers => 4,
            TableId::OlmHashes => 5,
            TableId::Devices => 6,
            TableId::Identities => 7,
            TableId::BackupKeys => 8,
            TableId::RoomSettings => 9,
            TableId::DirectWithheldInfo => 10,
            TableId::SecretsInbox => 11,
            TableId::GossipRequests => 12,
            TableId::InboundGroupSessionsV2 => 13,
            TableId::OutgoingSecretRequests => 14,
            TableId::UnsentSecretRequests => 15,
            TableId::SecretRequestsByInfo => 16,
        }
    }

    /// The name under which the table is persisted. Names are part of the
    /// on-disk format and never change meaning.
    pub open spec fn spec_name(self) -> Seq<char> {
        match self {
            TableId::Core => "core"@,
            TableId::Session => "session"@,
            TableId::InboundGroupSessionsV1 => "inbound_group_sessions"@,
            TableId::OutboundGroupSessions => "outbound_group_sessions"@,
            TableId::TrackedUsers => "tracked_users"@,
            TableId::OlmHashes => "olm_hashes"@,
            TableId::Devices => "devices"@,
            TableId::Identities => "identities"@,
            TableId::BackupKeys => "backup_keys"@,
            TableId::RoomSettings => "room_settings"@,
            TableId::DirectWithheldInfo => "direct_withheld_info"@,
            TableId::SecretsInbox => "secrets_inbox"@,
            TableId::GossipRequests => "gossip_requests"@,
            TableId::InboundGroupSessionsV2 => "inbound_group_sessions2"@,
            TableId::OutgoingSecretRequests => "outgoing_secret_requests"@,
            TableId::UnsentSecretRequests => "unsent_secret_requests"@,
            TableId::SecretRequestsByInfo => "secret_requests_by_info"@,
        }
    }

    pub fn name(&self) -> (r: &'static str)
        ensures
            r@ == self.spec_name(),
    {
        match self {
            TableId::Core => "core",
            TableId::Session => "session",
            TableId::InboundGroupSessionsV1 => "inbound_group_sessions",
            TableId::OutboundGroupSessions => "outbound_group_sessions",
            TableId::TrackedUsers => "tracked_users",
            TableId::OlmHashes => "olm_hashes",
            TableId::Devices => "devices",
            TableId::Identities => "identities",
            TableId::BackupKeys => "backup_keys",
            TableId::RoomSettings => "room_settings",
            TableId::DirectWithheldInfo => "direct_withheld_info",
            TableId::SecretsInbox => "secrets_inbox",
            TableId::GossipRequests => "gossip_requests",
            TableId::InboundGroupSessionsV2 => "inbound_group_sessions2",
            TableId::OutgoingSecretRequests => "outgoing_secret_requests",
            TableId::UnsentSecretRequests => "unsent_secret_requests",
            TableId::SecretRequestsByInfo => "secret_requests_by_info",
        }
    }
}


/// A secondary index of the store. Each index belongs to one table.
#[derive(Clone, Copy, Debug, PartialEq, Eq, Structural)]
pub enum IndexId {
    /// Non-unique index of `GossipRequests` on the "unsent" field.
    GossipRequestsUnsent,
    /// Unique index of `GossipRequests` on the "info" field.
    GossipRequestsByInfo,
    /// Non-unique index of `InboundGroupSessionsV2` on the "needs_backup" field.
    InboundGroupSessionsBackup,
}

/// The number of indexes that `IndexId` names.
pub const INDEX_COUNT: usize = 3;

impl IndexId {
    pub open spec fn spec_ordinal(self) -> nat {
        match self {
            IndexId::GossipRequestsUnsent => 0,
            IndexId::GossipRequestsByInfo => 1,
            IndexId::InboundGroupSessionsBackup => 2,
        }
    }

    pub fn ordinal(&self) -> (r: usize)
        ensures
            r == self.spec_ordinal(),
            r < INDEX_COUNT,
    {
        match self {
            IndexId::GossipRequestsUnsent => 0,
            IndexId::GossipRequestsByInfo => 1,
            IndexId::InboundGroupSessionsBackup => 2,
        }
    }

    /// The table that the index belongs to.
    pub open spec fn spec_table(self) -> TableId {
        match self {
            IndexId::GossipRequestsUnsent => TableId::GossipRequests,
            IndexId::GossipRequestsByInfo => TableId::GossipRequests,
            IndexId::InboundGroupSessionsBackup => TableId::InboundGroupSessionsV2,
        }
    }

    pub fn table(&self) -> (r: TableId)
        ensures
            r == self.spec_table(),
    {
        match self {
            IndexId::GossipRequestsUnsent => TableId::GossipRequests,
            IndexId::GossipRequestsByInfo => TableId::GossipRequests,
            IndexId::InboundGroupSessionsBackup => TableId::InboundGroupSessionsV2,
        }
    }

    /// Whether two records of the table may share the indexed value.
    pub open spec fn spec_is_unique(self) -> bool {
        self == IndexId::GossipRequestsByInfo
    }

    pub fn is_unique(&self) -> (r: bool)
        ensures
            r == self.spec_is_unique(),
    {
        match self {
            IndexId::GossipRequestsByInfo => true,
            _ => false,
        }
    }

    pub open spec fn spec_name(self) -> Seq<char> {
        match self {
            IndexId::GossipRequestsUnsent => "unsent"@,
            IndexId::GossipRequestsByInfo => "by_info"@,
            IndexId::InboundGroupSessionsBackup => "backup"@,
        }
    }

    pub fn name(&self) -> (r: &'static str)
        ensures
            r@ == self.spec_name(),
    {
        match self {
            IndexId::GossipRequestsUnsent => "unsent",
            IndexId::GossipRequestsByInfo => "by_info",
            IndexId::InboundGroupSessionsBackup => "backup",
        }
    }

    /// The field of the stored value that the index is keyed by.
    pub open spec fn spec_key_path(self) -> Seq<char> {
        match self {
            IndexId::GossipRequestsUnsent => "unsent"@,
            IndexId::GossipRequestsByInfo => "info"@,
            IndexId::InboundGroupSessionsBackup => "needs_backup"@,
        }
    }

    pub fn key_path(&self) -> (r: &'static str)
        ensures
            r@ == self.spec_key_path(),
    {
        match self {
            IndexId::GossipRequestsUnsent => "unsent",
            IndexId::GossipRequestsByInfo => "info",
            IndexId::InboundGroupSessionsBackup => "needs_backup",
        }
    }
}

/// One structural change to the catalog.
#[derive(Clone, Copy, Debug, PartialEq, Eq, Structural)]
pub enum SchemaOp {
    CreateTable(TableId),
    /// Creates the index on the table that it belongs to.
    CreateIndex(IndexId),
    /// Drops the table with its indexes and records.
    DeleteTable(TableId),
}

/// Version 1: the base tables.
pub open spec fn ops_v1() -> Seq<SchemaOp> {
    seq![
        SchemaOp::CreateTable(TableId::Core),
        SchemaOp::CreateTable(TableId::Session),
        SchemaOp::CreateTable(TableId::InboundGroupSessionsV1),
        SchemaOp::CreateTable(TableId::OutboundGroupSessions),
        SchemaOp::CreateTable(TableId::TrackedUsers),
        SchemaOp::CreateTable(TableId::OlmHashes),
        SchemaOp::CreateTable(TableId::Devices),
        SchemaOp::CreateTable(TableId::Identities),
        SchemaOp::CreateTable(TableId::BackupKeys),
    ]
}

/// Version 2: the key of inbound group sessions lost a part, so their table
/// is dropped and made again; room settings get a table.
pub open spec fn ops_v2() -> Seq<SchemaOp> {
    seq![
        SchemaOp::DeleteTable(TableId::InboundGroupSessionsV1),
        SchemaOp::CreateTable(TableId::InboundGroupSessionsV1),
        SchemaOp::CreateTable(TableId::RoomSettings),
    ]
}

/// Version 3: outbound sessions changed shape and are discarded; withheld
/// codes get a table.
pub open spec fn ops_v3() -> Seq<SchemaOp> {
    seq![
        SchemaOp::DeleteTable(TableId::OutboundGroupSessions),
        SchemaOp::CreateTable(TableId::OutboundGroupSessions),
        SchemaOp::CreateTable(TableId::DirectWithheldInfo),
    ]
}

/// Version 4: the secrets inbox.
pub open spec fn ops_v4() -> Seq<SchemaOp> {
    seq![SchemaOp::CreateTable(TableId::SecretsInbox)]
}

/// Version 5: gossip requests with their two indexes; the three tables they
/// replace are dropped where the first of them is present.
pub open spec fn ops_v5(has_superseded: bool) -> Seq<SchemaOp> {
    seq![
        SchemaOp::CreateTable(TableId::GossipRequests),
        SchemaOp::CreateIndex(IndexId::GossipRequestsUnsent),
        SchemaOp::CreateIndex(IndexId::GossipRequestsByInfo),
    ] + if has_superseded {
        seq![
            SchemaOp::DeleteTable(TableId::OutgoingSecretRequests),
            SchemaOp::DeleteTable(TableId::UnsentSecretRequests),
            SchemaOp::DeleteTable(TableId::SecretRequestsByInfo),
        ]
    } else {
        Seq::<SchemaOp>::empty()
    }
}

/// Version 6: the new inbound-session table with its backup index. The old
/// table stays: it is the source of the data migration.
pub open spec fn ops_v6() -> Seq<SchemaOp> {
    seq![
        SchemaOp::CreateTable(TableId::InboundGroupSessionsV2),
        SchemaOp::CreateIndex(IndexId::InboundGroupSessionsBackup),
    ]
}

/// Version 7: the drained old inbound-session table is dropped.
pub open spec fn ops_v7() -> Seq<SchemaOp> {
    seq![SchemaOp::DeleteTable(TableId::InboundGroupSessionsV1)]
}

/// `s` when `cond` holds, else nothing.
pub open spec fn ops_if(cond: bool, s: Seq<SchemaOp>) -> Seq<SchemaOp> {
    if cond {
        s
    } else {
        Seq::empty()
    }
}

/// The steps of one upgrade transaction to version 6, from a store at
/// `old_version`. The base tables are created where the catalog is empty,
/// since a store opened without a version reports version 1 with no tables.
pub open spec fn ops_up_to_v6(catalog_empty: bool, old_version: nat, has_superseded: bool) -> Seq<
    SchemaOp,
> {
    ops_if(catalog_empty, ops_v1()) + ops_if(old_version < 2, ops_v2()) + ops_if(
        old_version < 3,
        ops_v3(),
    ) + ops_if(old_version < 4, ops_v4()) + ops_if(old_version < 5, ops_v5(has_superseded))
        + ops_if(old_version < 6, ops_v6())
}

pub fn migrate_stores_to_v1() -> (r: Vec<SchemaOp>)
    ensures
        r@ == ops_v1(),
{
    let r = vec![
        SchemaOp::CreateTable(TableId::Core),
        SchemaOp::CreateTable(TableId::Session),
        SchemaOp::CreateTable(TableId::InboundGroupSessionsV1),
        SchemaOp::CreateTable(TableId::OutboundGroupSessions),
        SchemaOp::CreateTable(TableId::TrackedUsers),
        SchemaOp::CreateTable(TableId::OlmHashes),
        SchemaOp::CreateTable(TableId::Devices),
        SchemaOp::CreateTable(TableId::Identities),
        SchemaOp::CreateTable(TableId::BackupKeys),
    ];
    assert(r@ =~= ops_v1());
    r
}

pub fn migrate_stores_to_v2() -> (r: Vec<SchemaOp>)
    ensures
        r@ == ops_v2(),
{
    let r = vec![
        SchemaOp::DeleteTable(TableId::InboundGroupSessionsV1),
        SchemaOp::CreateTable(TableId::InboundGroupSessionsV1),
        SchemaOp::CreateTable(TableId::RoomSettings),
    ];
    assert(r@ =~= ops_v2());
    r
}

pub fn migrate_stores_to_v3() -> (r: Vec<SchemaOp>)
    ensures
        r@ == ops_v3(),
{
    let r = vec![
        SchemaOp::DeleteTable(TableId::OutboundGroupSessions),
        SchemaOp::CreateTable(TableId::OutboundGroupSessions),
        SchemaOp::CreateTable(TableId::DirectWithheldInfo),
    ];
    assert(r@ =~= ops_v3());
    r
}

pub fn migrate_stores_to_v4() -> (r: Vec<SchemaOp>)
    ensures
        r@ == ops_v4(),
{
    let r = vec![SchemaOp::CreateTable(TableId::SecretsInbox)];
    assert(r@ =~= ops_v4());
    r
}

/// `has_superseded` tells whether the catalog holds `OutgoingSecretRequests`.
pub fn migrate_stores_to_v5(has_superseded: bool) -> (r: Vec<SchemaOp>)
    ensures
        r@ == ops_v5(has_superseded),
{
    let mut r = vec![
        SchemaOp::CreateTable(TableId::GossipRequests),
        SchemaOp::CreateIndex(IndexId::GossipRequestsUnsent),
        SchemaOp::CreateIndex(IndexId::GossipRequestsByInfo),
    ];
    if has_superseded {
        r.push(SchemaOp::DeleteTable(TableId::OutgoingSecretRequests));
        r.push(SchemaOp::DeleteTable(TableId::UnsentSecretRequests));
        r.push(SchemaOp::DeleteTable(TableId::SecretRequestsByInfo));
    }
    assert(r@ =~= ops_v5(has_superseded));
    r
}

pub fn migrate_stores_to_v6() -> (r: Vec<SchemaOp>)
    ensures
        r@ == ops_v6(),
{
    let r = vec![
        SchemaOp::CreateTable(TableId::InboundGroupSessionsV2),
        SchemaOp::CreateIndex(IndexId::InboundGroupSessionsBackup),
    ];
    assert(r@ =~= ops_v6());
    r
}

pub fn migrate_stores_to_v7() -> (r: Vec<SchemaOp>)
    ensures
        r@ == ops_v7(),
{
    let r = vec![SchemaOp::DeleteTable(TableId::InboundGroupSessionsV1)];
    assert(r@ =~= ops_v7());
    r
}

/// Appends `more` to `ops`.
fn append_ops(ops: &mut Vec<SchemaOp>, more: Vec<SchemaOp>)
    ensures
        final(ops)@ == old(ops)@ + more@,
{
    let mut i: usize = 0;
    while i < more.len()
        invariant
            i <= more@.len(),
            ops@ == old(ops)@ + more@.subrange(0, i as int),
        decreases more@.len() - i,
    {
        ops.push(more[i]);
        i += 1;
        assert(ops@ =~= old(ops)@ + more@.subrange(0, i as int));
    }
    assert(more@.subrange(0, more@.len() as int) =~= more@);
}

/// The steps that the upgrade callback to version 6 runs, given what the
/// catalog holds when the callback starts.
pub fn upgrade_ops_up_to_v6(catalog_empty: bool, old_version: u32, has_superseded: bool) -> (r: Vec<
    SchemaOp,
>)
    ensures
        r@ == ops_up_to_v6(catalog_empty, old_version as nat, has_superseded),
{
    let mut r: Vec<SchemaOp> = Vec::new();
    if catalog_empty {
        append_ops(&mut r, migrate_stores_to_v1());
    }
    assert(r@ =~= ops_if(catalog_empty, ops_v1()));
    if old_version < 2 {
        append_ops(&mut r, migrate_stores_to_v2());
    }
    assert(r@ =~= ops_if(catalog_empty, ops_v1()) + ops_if(old_version < 2, ops_v2()));
    if old_version < 3 {
        append_ops(&mut r, migrate_stores_to_v3());
    }
    assert(r@ =~= ops_if(catalog_empty, ops_v1()) + ops_if(old_version < 2, ops_v2()) + ops_if(
        old_version < 3,
        ops_v3(),
    ));
    if old_version < 4 {
        append_ops(&mut r, migrate_stores_to_v4());
    }
    assert(r@ =~= ops_if(catalog_empty, ops_v1()) + ops_if(old_version < 2, ops_v2()) + ops_if(
        old_version < 3,
        ops_v3(),
    ) + ops_if(old_version < 4, ops_v4()));
    if old_version < 5 {
        append_ops(&mut r, migrate_stores_to_v5(has_superseded));
    }
    assert(r@ =~= ops_if(catalog_empty, ops_v1()) + ops_if(old_version < 2, ops_v2()) + ops_if(
        old_version < 3,
        ops_v3(),
    ) + ops_if(old_version < 4, ops_v4()) + ops_if(old_version < 5, ops_v5(has_superseded)));
    if old_version < 6 {
        append_ops(&mut r, migrate_stores_to_v6());
    }
    assert(r@ =~= ops_up_to_v6(catalog_empty, old_version as nat, has_superseded));
    r
}

/// The steps that the upgrade callback to version 7 runs.
pub fn upgrade_ops_for_v7(old_version: u32) -> (r: Vec<SchemaOp>)
    ensures
        r@ == ops_if(old_version < 7, ops_v7()),
{
    if old_version < 7 {
        migrate_stores_to_v7()
    } else {
        let r: Vec<SchemaOp> = Vec::new();
        assert(r@ =~= ops_if(old_version < 7, ops_v7()));
        r
    }
}

} // verus!
