//! The orchestration of an upgrade: the pending phases run in order, each
//! committed before the next starts.
use vstd::prelude::*;

use crate::model::{
    apply_phase, phase_schema_up_to_v6, phase_schema_v7, phase_schema_v8, plan, run_phases, upgrade,
    open_default, pending_phases, MigrationError, Phase, StoreView, CURRENT_VERSION,
};
use crate::schema::{upgrade_ops_for_v7, upgrade_ops_up_to_v6, SchemaOp, TableId};
use crate::store::MemoryStore;

verus! {

/// A phase that maps `before` to `res` ran, returned `r`, and left `after`:
/// a committed phase leaves its result, an aborted one leaves the store as
/// it was.
pub open spec fn outcome(
    res: Result<StoreView, MigrationError>,
    r: Result<(), MigrationError>,
    before: StoreView,
    after: StoreView,
) -> bool {
    match res {
        Ok(s2) => r is Ok && after == s2,
        Err(e) => r == Err::<(), MigrationError>(e) && after == before,
    }
}

/// Opens the store at version 6, running every structural step that the
/// store is missing in one upgrade transaction.
pub fn migrate_schema_up_to_v6(store: &mut MemoryStore) -> (r: Result<(), MigrationError>)
    requires
        old(store).wf(),
    ensures
        final(store).wf(),
        outcome(phase_schema_up_to_v6(old(store)@), r, old(store)@, final(store)@),
{
    let ops = upgrade_ops_up_to_v6(
        store.catalog_is_empty(),
        store.version(),
        store.has_table(TableId::OutgoingSecretRequests),
    );
    store.open_at(6, &ops)
}

/// Opens the store at version 7, dropping the drained old inbound-session
/// table.
pub fn migrate_schema_for_v7(store: &mut MemoryStore) -> (r: Result<(), MigrationError>)
    requires
        old(store).wf(),
    ensures
        final(store).wf(),
        outcome(phase_schema_v7(old(store)@), r, old(store)@, final(store)@),
{
    let ops = upgrade_ops_for_v7(store.version());
    store.open_at(7, &ops)
}

/// Opens the store at version 8. Nothing changes in the catalog: the new
/// version records that the key correction has committed.
pub fn migrate_schema_for_v8(store: &mut MemoryStore) -> (r: Result<(), MigrationError>)
    requires
        old(store).wf(),
    ensures
        final(store).wf(),
        outcome(phase_schema_v8(old(store)@), r, old(store)@, final(store)@),
{
    let ops: Vec<SchemaOp> = Vec::new();
    assert(ops@ =~= Seq::<SchemaOp>::empty());
    store.open_at(8, &ops)
}

/// Runs one phase.
pub fn run_phase(store: &mut MemoryStore, p: Phase) -> (r: Result<(), MigrationError>)
    requires
        old(store).wf(),
    ensures
        final(store).wf(),
        outcome(apply_phase(p, old(store)@), r, old(store)@, final(store)@),
{
    match p {
        Phase::SchemaUpToV6 => migrate_schema_up_to_v6(store),
        Phase::MigrateData => store.prepare_data_for_v7(),
        Phase::SchemaV7 => migrate_schema_for_v7(store),
        Phase::FixKeys => store.prepare_data_for_v8(),
        Phase::SchemaV8 => migrate_schema_for_v8(store),
        Phase::OpenCurrent => {
            let ops: Vec<SchemaOp> = Vec::new();
            assert(ops@ =~= Seq::<SchemaOp>::empty());
            store.open_at(CURRENT_VERSION, &ops)
        },
    }
}

/// Opens the store and upgrades it to the current version.
///
/// The store is first opened without a version to learn where it stands;
/// the pending phases then run in order. The first phase that fails stops
/// the upgrade with its error, and the store keeps what the phases before
/// it committed.
pub fn open_and_upgrade_db(store: &mut MemoryStore) -> (r: Result<(), MigrationError>)
    requires
        old(store).wf(),
    ensures
        final(store).wf(),
        final(store)@ == upgrade(old(store)@).0,
        r == upgrade(old(store)@).1,
{
    store.open_default();
    let ghost s1 = store@;
    let phases = pending_phases(store.version());
    let n = phases.len();
    assert(phases@.subrange(0, n as int) =~= phases@);
    let mut i: usize = 0;
    while i < n
        invariant
            store.wf(),
            n == phases@.len(),
            phases@ == plan(s1.version),
            s1 == open_default(old(store)@),
            i <= n,
            run_phases(phases@, s1) == run_phases(phases@.subrange(i as int, n as int), store@),
        decreases n - i,
    {
        let ghost rest = phases@.subrange(i as int, n as int);
        assert(rest[0] == phases@[i as int]);
        assert(rest.drop_first() =~= phases@.subrange(i as int + 1, n as int));
        match run_phase(store, phases[i]) {
            Ok(()) => {},
            Err(e) => {
                return Err(e);
            },
        }
        i += 1;
    }
    assert(phases@.subrange(n as int, n as int) =~= Seq::<Phase>::empty());
    Ok(())
}

} // verus!
