//! What holds of every upgrade, proved over the model.
use vstd::prelude::*;

use crate::codec::{canonical_key, key_lt, lemma_encode_key_injective, lemma_key_lt_total};
use crate::lemmas::{
    keys_disjoint, lemma_apply_ops_wf, lemma_fixup_sorted, lemma_insert_session,
    lemma_insert_session_sorted, lemma_session_slot, lemma_sorted_unique,
};
use crate::model::{
    all_canonical, apply_phase, fixup_records, has_key, insert_session, keys_unique,
    legacy_sorted, migrate_records, session_slot, sessions_sorted,
    migrated_record, open_default, phase_fix_keys, plan, relocated, run_phases, upgrade,
    LegacyRecordView, MigrationError, Phase, SessionRecordView, StoreView, apply_ops,
    phase_schema_up_to_v6,
};
use crate::schema::{
    ops_if, ops_up_to_v6, ops_v1, ops_v2, ops_v3, ops_v4, ops_v5, ops_v6, ops_v7, IndexId, SchemaOp,
    TableId,
};

verus! {

/// Running `ps` is running its first `k` phases, then the rest from where
/// they left the store, if they all committed.
proof fn lemma_run_split(ps: Seq<Phase>, s: StoreView, k: int)
    requires
        0 <= k <= ps.len(),
    ensures
        run_phases(ps, s) == (if run_phases(ps.take(k), s).1 is Ok {
            run_phases(ps.skip(k), run_phases(ps.take(k), s).0)
        } else {
            run_phases(ps.take(k), s)
        }),
    decreases k,
{
    if k == 0 {
        assert(ps.take(0) =~= Seq::<Phase>::empty());
        assert(ps.skip(0) =~= ps);
    } else {
        let t = ps.take(k);
        assert(t[0] == ps[0]);
        assert(t.drop_first() =~= ps.drop_first().take(k - 1));
        assert(ps.drop_first().skip(k - 1) =~= ps.skip(k));
        match apply_phase(ps[0], s) {
            Ok(s2) => {
                lemma_run_split(ps.drop_first(), s2, k - 1);
            },
            Err(_) => {},
        }
    }
}

/// When the first `k + 1` phases commit, so do the first `k`, and phase `k`
/// takes the store from where they left it to where the `k + 1` leave it.
proof fn lemma_run_step(ps: Seq<Phase>, s: StoreView, k: int)
    requires
        0 <= k < ps.len(),
        run_phases(ps.take(k + 1), s).1 is Ok,
    ensures
        run_phases(ps.take(k), s).1 is Ok,
        apply_phase(ps[k], run_phases(ps.take(k), s).0) == Ok::<StoreView, MigrationError>(
            run_phases(ps.take(k + 1), s).0,
        ),
{
    let t = ps.take(k + 1);
    lemma_run_split(t, s, k);
    assert(t.take(k) =~= ps.take(k));
    assert(t.skip(k) =~= seq![ps[k]]);
    let one = seq![ps[k]];
    assert(one.drop_first() =~= Seq::<Phase>::empty());
    let ck = run_phases(ps.take(k), s).0;
    match apply_phase(ps[k], ck) {
        Ok(c2) => {
            assert(run_phases(Seq::<Phase>::empty(), c2) == (c2, Ok::<(), MigrationError>(())));
        },
        Err(_) => {},
    }
}

/// Writing a record that sits under its canonical key keeps every record
/// under its canonical key.
proof fn lemma_insert_canonical(t: Seq<SessionRecordView>, r: SessionRecordView)
    requires
        all_canonical(t),
        r.session is Some,
        r.key == canonical_key(r.session->0),
    ensures
        all_canonical(insert_session(t, r)),
{
    let u = insert_session(t, r);
    lemma_insert_session(t, r);
    assert forall|j: int| 0 <= j < u.len() implies (#[trigger] u[j]).session is Some && u[j].key
        == canonical_key(u[j].session->0) by {
        if u[j] != r {
            let i = choose|i: int| 0 <= i < t.len() && t[i] == u[j];
            assert(t[i].session is Some);
        }
    }
}

/// After the key correction every record sits under its canonical key.
proof fn lemma_fixup_canonical(scan: Seq<SessionRecordView>, done: Seq<SessionRecordView>)
    requires
        all_canonical(done),
    ensures
        fixup_records(scan, done) is Ok ==> all_canonical(fixup_records(scan, done)->Ok_0),
    decreases scan.len(),
{
    if scan.len() > 0 {
        if let Some(v) = scan[0].session {
            let k = canonical_key(v);
            let rest = scan.drop_first();
            if k == scan[0].key {
                lemma_insert_canonical(done, scan[0]);
                lemma_fixup_canonical(rest, insert_session(done, scan[0]));
            } else if has_key(done, k) || has_key(rest, k) {
                lemma_fixup_canonical(rest, done);
            } else {
                lemma_insert_canonical(done, relocated(scan[0], k));
                lemma_fixup_canonical(rest, insert_session(done, relocated(scan[0], k)));
            }
        }
    }
}

/// The key correction leaves a sorted table whose records all sit under
/// their canonical keys as it is.
proof fn lemma_fixup_identity(scan: Seq<SessionRecordView>, done: Seq<SessionRecordView>)
    requires
        all_canonical(scan),
        sessions_sorted(done + scan),
    ensures
        fixup_records(scan, done) == Ok::<Seq<SessionRecordView>, MigrationError>(done + scan),
    decreases scan.len(),
{
    if scan.len() == 0 {
        assert(done + scan =~= done);
    } else {
        let rest = scan.drop_first();
        assert(all_canonical(rest)) by {
            assert forall|j: int| 0 <= j < rest.len() implies (#[trigger] rest[j]).session is Some
                && rest[j].key == canonical_key(rest[j].session->0) by {
                assert(rest[j] == scan[j + 1]);
            }
        }
        assert(scan[0].session is Some);
        let u = done + scan;
        lemma_session_slot(done, scan[0].key);
        let p = session_slot(done, scan[0].key);
        if p < done.len() {
            assert(u[p] == done[p]);
            assert(u[done.len() as int] == scan[0]);
            assert(key_lt(done[p].key, scan[0].key));
            lemma_key_lt_total(done[p].key, scan[0].key);
        }
        assert(insert_session(done, scan[0]) =~= done.push(scan[0]));
        assert(done.push(scan[0]) + rest =~= done + scan);
        lemma_fixup_identity(rest, done.push(scan[0]));
    }
}

/// The data migration leaves a sorted table.
proof fn lemma_migrate_sorted(legacy: Seq<LegacyRecordView>, acc: Seq<SessionRecordView>)
    requires
        sessions_sorted(acc),
    ensures
        migrate_records(legacy, acc) is Ok ==> sessions_sorted(migrate_records(legacy, acc)->Ok_0),
    decreases legacy.len(),
{
    if legacy.len() > 0 {
        if let Some(v) = legacy[0].value {
            if !has_key(acc, legacy[0].key) {
                lemma_insert_session_sorted(acc, migrated_record(legacy[0], v));
                lemma_migrate_sorted(
                    legacy.drop_first(),
                    insert_session(acc, migrated_record(legacy[0], v)),
                );
            }
        }
    }
}

/// A committed phase leaves a well-formed store well formed.
proof fn lemma_phase_wf(p: Phase, s: StoreView)
    requires
        s.wf(),
    ensures
        apply_phase(p, s) is Ok ==> apply_phase(p, s)->Ok_0.wf(),
{
    match p {
        Phase::SchemaUpToV6 => {
            lemma_apply_ops_wf(
                s,
                ops_up_to_v6(
                    s.tables == Set::<TableId>::empty(),
                    s.version as nat,
                    s.tables.contains(TableId::OutgoingSecretRequests),
                ),
            );
        },
        Phase::MigrateData => {
            lemma_migrate_sorted(s.legacy, s.sessions);
            assert(legacy_sorted(Seq::<LegacyRecordView>::empty()));
        },
        Phase::SchemaV7 => {
            lemma_apply_ops_wf(s, ops_if(s.version < 7, ops_v7()));
        },
        Phase::FixKeys => {
            assert(sessions_sorted(Seq::<SessionRecordView>::empty()));
            assert(keys_disjoint(Seq::<SessionRecordView>::empty(), s.sessions));
            lemma_fixup_sorted(s.sessions, Seq::empty());
        },
        _ => {
            lemma_apply_ops_wf(s, Seq::empty());
        },
    }
}

/// Running phases leaves a well-formed store well formed.
proof fn lemma_run_wf(ps: Seq<Phase>, s: StoreView)
    requires
        s.wf(),
    ensures
        run_phases(ps, s).0.wf(),
    decreases ps.len(),
{
    if ps.len() > 0 {
        lemma_phase_wf(ps[0], s);
        if let Ok(s2) = apply_phase(ps[0], s) {
            lemma_run_wf(ps.drop_first(), s2);
        }
    }
}

/// A store that an upgrade completed is at the current version.
proof fn lemma_upgrade_version(s: StoreView)
    requires
        upgrade(s).1 is Ok,
    ensures
        upgrade(s).0.version == 8,
{
    let s1 = open_default(s);
    let ps = plan(s1.version);
    let n = ps.len() as int;
    assert(ps.take(n) =~= ps);
    lemma_run_step(ps, s1, n - 1);
    assert(ps[n - 1] == Phase::OpenCurrent);
}

/// Idempotence: upgrading a store that an upgrade has completed changes
/// nothing and succeeds.
pub proof fn lemma_upgrade_idempotent(s: StoreView)
    requires
        upgrade(s).1 is Ok,
    ensures
        upgrade(upgrade(s).0) == (upgrade(s).0, Ok::<(), MigrationError>(())),
{
    lemma_upgrade_version(s);
    let t = upgrade(s).0;
    assert(open_default(t) == t);
    assert(plan(8) =~= seq![Phase::OpenCurrent]);
    assert(seq![Phase::OpenCurrent].drop_first() =~= Seq::<Phase>::empty());
    assert(apply_phase(Phase::OpenCurrent, t) == Ok::<StoreView, MigrationError>(t));
    assert(run_phases(Seq::<Phase>::empty(), t) == (t, Ok::<(), MigrationError>(())));
}

/// The phases of an upgrade of `s`.
pub open spec fn upgrade_plan(s: StoreView) -> Seq<Phase> {
    plan(open_default(s).version)
}

/// Whether the first `k` phases of an upgrade of `s` commit.
pub open spec fn commits_through(s: StoreView, k: int) -> bool {
    0 <= k <= upgrade_plan(s).len() && run_phases(upgrade_plan(s).take(k), open_default(s)).1 is Ok
}

/// The store that an upgrade of `s` leaves when it stops right after its
/// first `k` phases commit.
pub open spec fn checkpoint(s: StoreView, k: int) -> StoreView {
    run_phases(upgrade_plan(s).take(k), open_default(s)).0
}

/// Crash safety: an upgrade that stops after any committed phase, followed
/// by a fresh upgrade, ends exactly as an upgrade that was never stopped:
/// same store, same result.
pub proof fn lemma_crash_safety(s: StoreView, k: int)
    requires
        s.wf(),
        commits_through(s, k),
    ensures
        upgrade(checkpoint(s, k)) == upgrade(s),
{
    let s1 = open_default(s);
    let v = s1.version;
    let ps = plan(v);
    let c = checkpoint(s, k);
    lemma_run_split(ps, s1, k);
    assert(v >= 1);
    if k == 0 {
        assert(ps.take(0) =~= Seq::<Phase>::empty());
        assert(c == s1);
        assert(open_default(s1) == s1);
        assert(ps.skip(0) =~= ps);
        return;
    }
    lemma_run_step(ps, s1, k - 1);
    let p = run_phases(ps.take(k - 1), s1).0;
    assert(apply_phase(ps[k - 1], p) == Ok::<StoreView, MigrationError>(c));
    let full = seq![
        Phase::SchemaUpToV6,
        Phase::MigrateData,
        Phase::SchemaV7,
        Phase::FixKeys,
        Phase::SchemaV8,
        Phase::OpenCurrent,
    ];
    let tail = seq![Phase::FixKeys, Phase::SchemaV8, Phase::OpenCurrent];
    if v < 7 {
        assert(ps =~= full);
    } else if v < 8 {
        assert(ps =~= tail);
    } else {
        assert(ps =~= seq![Phase::OpenCurrent]);
    }
    let rest = ps.skip(k);
    if ps[k - 1] == Phase::SchemaUpToV6 {
        // The schema is at version 6: the resumed upgrade opens it at 6 again,
        // which changes nothing.
        assert(c.version == 6);
        assert(open_default(c) == c);
        assert(plan(6) =~= full);
        assert(apply_phase(Phase::SchemaUpToV6, c) == Ok::<StoreView, MigrationError>(c));
        assert(full.drop_first() =~= rest);
        assert(full[0] == Phase::SchemaUpToV6);
        assert(upgrade(c) == run_phases(rest, c));
    } else if ps[k - 1] == Phase::MigrateData {
        // The old table is drained: migrating it again moves nothing.
        assert(k == 2);
        lemma_run_step(ps, s1, 0);
        assert(ps.take(0) =~= Seq::<Phase>::empty());
        assert(p.version == 6);
        assert(c.version == 6);
        assert(open_default(c) == c);
        assert(c.legacy.len() == 0);
        assert(plan(6) =~= full);
        assert(apply_phase(Phase::SchemaUpToV6, c) == Ok::<StoreView, MigrationError>(c));
        assert(c.legacy =~= Seq::<crate::model::LegacyRecordView>::empty());
        assert(apply_phase(Phase::MigrateData, c) == Ok::<StoreView, MigrationError>(c));
        assert(full.drop_first().drop_first() =~= rest);
        assert(full.drop_first()[0] == Phase::MigrateData);
        assert(full[0] == Phase::SchemaUpToV6);
        assert(run_phases(full, c) == run_phases(full.drop_first(), c));
        assert(upgrade(c) == run_phases(rest, c));
    } else if ps[k - 1] == Phase::SchemaV7 {
        assert(c.version == 7);
        assert(open_default(c) == c);
        assert(plan(7) =~= rest);
        assert(upgrade(c) == run_phases(rest, c));
    } else if ps[k - 1] == Phase::FixKeys {
        // Every key is canonical: correcting them again changes nothing.
        assert(open_default(s).wf());
        lemma_run_wf(ps.take(k - 1), s1);
        lemma_phase_wf(Phase::FixKeys, p);
        lemma_fixup_canonical(p.sessions, Seq::empty());
        assert(all_canonical(c.sessions));
        assert(Seq::<SessionRecordView>::empty() + c.sessions =~= c.sessions);
        lemma_fixup_identity(c.sessions, Seq::empty());
        assert(Seq::<SessionRecordView>::empty() + c.sessions =~= c.sessions);
        assert(apply_phase(Phase::FixKeys, c) == Ok::<StoreView, MigrationError>(c));
        assert(c.version == p.version);
        if v < 7 {
            assert(k == 4);
            lemma_run_step(ps, s1, 2);
            assert(run_phases(ps.take(3), s1).0.version == 7);
        } else {
            assert(k == 1);
            assert(ps.take(0) =~= Seq::<Phase>::empty());
        }
        assert(c.version == 7);
        assert(open_default(c) == c);
        assert(plan(7) =~= tail);
        assert(tail.drop_first() =~= rest);
        assert(tail[0] == Phase::FixKeys);
        assert(upgrade(c) == run_phases(rest, c));
    } else {
        // Opened at version 8: only the final open is left, and it changes
        // nothing.
        assert(c.version == 8);
        assert(open_default(c) == c);
        assert(plan(8) =~= seq![Phase::OpenCurrent]);
        if ps[k - 1] == Phase::OpenCurrent {
            assert(rest =~= Seq::<Phase>::empty());
            assert(seq![Phase::OpenCurrent].drop_first() =~= Seq::<Phase>::empty());
            assert(apply_phase(Phase::OpenCurrent, c) == Ok::<StoreView, MigrationError>(c));
            assert(run_phases(Seq::<Phase>::empty(), c) == (c, Ok::<(), MigrationError>(())));
        } else {
            assert(rest =~= seq![Phase::OpenCurrent]);
        }
    }
}

/// Whether a key that is canonical for some record of `t` is held only by a
/// record for which it is canonical too: no record sits under a stale key
/// that another record's canonical key happens to equal.
pub open spec fn no_stale_clash(t: Seq<SessionRecordView>) -> bool {
    forall|i: int, j: int|
        0 <= i < t.len() && 0 <= j < t.len() && (#[trigger] t[i]).session is Some && (
        #[trigger] t[j]).key == canonical_key(t[i].session->0) ==> t[j].session is Some
            && t[j].key == canonical_key(t[j].session->0)
}

/// Whether every record of `t` decodes and no two have the same canonical
/// key.
pub open spec fn canonical_distinct(t: Seq<SessionRecordView>) -> bool {
    &&& forall|i: int| 0 <= i < t.len() ==> (#[trigger] t[i]).session is Some
    &&& forall|i: int, j: int|
        0 <= i < t.len() && 0 <= j < t.len() && i != j ==> canonical_key(
            (#[trigger] t[i]).session->0,
        ) != canonical_key((#[trigger] t[j]).session->0)
}

/// The new table of `s` as the data migration leaves it, where the
/// migration commits.
pub open spec fn migrated_table(s: StoreView) -> Seq<SessionRecordView> {
    migrate_records(s.legacy, s.sessions)->Ok_0
}

proof fn lemma_migrate_result(legacy: Seq<LegacyRecordView>, acc: Seq<SessionRecordView>)
    ensures
        migrate_records(legacy, acc) is Ok ==> {
            let t = migrate_records(legacy, acc)->Ok_0;
            &&& t.len() == acc.len() + legacy.len()
            &&& forall|y: SessionRecordView| acc.contains(y) ==> #[trigger] t.contains(y)
            &&& forall|i: int|
                0 <= i < legacy.len() ==> (#[trigger] legacy[i]).value is Some && t.contains(
                    migrated_record(legacy[i], legacy[i].value->0),
                )
        },
    decreases legacy.len(),
{
    if legacy.len() > 0 {
        if let Some(v) = legacy[0].value {
            let rest = legacy.drop_first();
            let m = migrated_record(legacy[0], v);
            let a2 = insert_session(acc, m);
            lemma_insert_session(acc, m);
            lemma_migrate_result(rest, a2);
            if migrate_records(legacy, acc) is Ok {
                let t = migrate_records(legacy, acc)->Ok_0;
                assert forall|i: int| 0 <= i < legacy.len() implies (#[trigger] legacy[i]).value is Some
                    && t.contains(migrated_record(legacy[i], legacy[i].value->0)) by {
                    if i > 0 {
                        assert(legacy[i] == rest[i - 1]);
                    }
                }
            }
        }
    }
}

/// A key that the key correction has already written stays to the end.
proof fn lemma_fixup_keeps_done(scan: Seq<SessionRecordView>, done: Seq<SessionRecordView>, k: Seq<u8>)
    requires
        has_key(done, k),
    ensures
        fixup_records(scan, done) is Ok ==> has_key(fixup_records(scan, done)->Ok_0, k),
    decreases scan.len(),
{
    if scan.len() > 0 {
        if let Some(v) = scan[0].session {
            let kk = canonical_key(v);
            let rest = scan.drop_first();
            if kk == scan[0].key {
                lemma_insert_session(done, scan[0]);
                lemma_fixup_keeps_done(rest, insert_session(done, scan[0]), k);
            } else if has_key(done, kk) || has_key(rest, kk) {
                lemma_fixup_keeps_done(rest, done, k);
            } else {
                lemma_insert_session(done, relocated(scan[0], kk));
                lemma_fixup_keeps_done(rest, insert_session(done, relocated(scan[0], kk)), k);
            }
        }
    }
}

proof fn lemma_no_stale_clash_rest(scan: Seq<SessionRecordView>)
    requires
        scan.len() > 0,
        no_stale_clash(scan),
    ensures
        no_stale_clash(scan.drop_first()),
{
    let rest = scan.drop_first();
    assert forall|i: int, j: int|
        0 <= i < rest.len() && 0 <= j < rest.len() && (#[trigger] rest[i]).session is Some && (
        #[trigger] rest[j]).key == canonical_key(rest[i].session->0) implies rest[j].session is Some
        && rest[j].key == canonical_key(rest[j].session->0) by {
        assert(rest[i] == scan[i + 1] && rest[j] == scan[j + 1]);
    }
}

/// Where no record sits under a stale key that is canonical for another,
/// the key correction leaves a record under the canonical key of every
/// record that it read.
proof fn lemma_fixup_reaches(scan: Seq<SessionRecordView>, done: Seq<SessionRecordView>)
    requires
        no_stale_clash(scan),
    ensures
        fixup_records(scan, done) is Ok ==> forall|i: int|
            0 <= i < scan.len() && (#[trigger] scan[i]).session is Some ==> has_key(
                fixup_records(scan, done)->Ok_0,
                canonical_key(scan[i].session->0),
            ),
    decreases scan.len(),
{
    if scan.len() > 0 {
        let rest = scan.drop_first();
        lemma_no_stale_clash_rest(scan);
        if let Some(v) = scan[0].session {
            let k = canonical_key(v);
            let d2 = if k == scan[0].key {
                insert_session(done, scan[0])
            } else if has_key(done, k) || has_key(rest, k) {
                done
            } else {
                insert_session(done, relocated(scan[0], k))
            };
            assert(fixup_records(scan, done) == fixup_records(rest, d2));
            lemma_fixup_reaches(rest, d2);
            if fixup_records(scan, done) is Ok {
                let t = fixup_records(scan, done)->Ok_0;
                if k == scan[0].key {
                    lemma_insert_session(done, scan[0]);
                    lemma_fixup_keeps_done(rest, d2, k);
                } else if has_key(done, k) {
                    lemma_fixup_keeps_done(rest, done, k);
                } else if has_key(rest, k) {
                    let j = choose|j: int| 0 <= j < rest.len() && #[trigger] rest[j].key == k;
                    assert(rest[j] == scan[j + 1]);
                    assert(scan[j + 1].key == canonical_key(scan[0].session->0));
                    assert(rest[j].session is Some);
                } else {
                    lemma_insert_session(done, relocated(scan[0], k));
                    lemma_fixup_keeps_done(rest, d2, k);
                }
                assert forall|i: int|
                    0 <= i < scan.len() && (#[trigger] scan[i]).session is Some implies has_key(
                    t,
                    canonical_key(scan[i].session->0),
                ) by {
                    if i > 0 {
                        assert(scan[i] == rest[i - 1]);
                    }
                }
            }
        }
    }
}

/// Whether none of `ops` drops an inbound-session table.
spec fn keeps_session_tables(ops: Seq<SchemaOp>) -> bool {
    forall|i: int|
        0 <= i < ops.len() ==> #[trigger] ops[i] != SchemaOp::DeleteTable(
            TableId::InboundGroupSessionsV1,
        ) && ops[i] != SchemaOp::DeleteTable(TableId::InboundGroupSessionsV2)
}

proof fn lemma_keeps_concat(a: Seq<SchemaOp>, b: Seq<SchemaOp>)
    requires
        keeps_session_tables(a),
        keeps_session_tables(b),
    ensures
        keeps_session_tables(a + b),
{
    assert forall|i: int| 0 <= i < (a + b).len() implies #[trigger] (a + b)[i]
        != SchemaOp::DeleteTable(TableId::InboundGroupSessionsV1) && (a + b)[i]
        != SchemaOp::DeleteTable(TableId::InboundGroupSessionsV2) by {
        if i < a.len() {
            assert((a + b)[i] == a[i]);
        } else {
            assert((a + b)[i] == b[i - a.len()]);
        }
    }
}

/// Structural changes that drop neither inbound-session table leave the
/// records of both as they are.
proof fn lemma_apply_ops_keeps_records(s: StoreView, ops: Seq<SchemaOp>)
    requires
        s.wf(),
        keeps_session_tables(ops),
    ensures
        apply_ops(s, ops) is Ok ==> apply_ops(s, ops)->Ok_0.legacy == s.legacy && apply_ops(
            s,
            ops,
        )->Ok_0.sessions == s.sessions,
    decreases ops.len(),
{
    if ops.len() > 0 {
        let init = ops.drop_last();
        assert forall|i: int| 0 <= i < init.len() implies #[trigger] init[i] != SchemaOp::DeleteTable(
            TableId::InboundGroupSessionsV1,
        ) && init[i] != SchemaOp::DeleteTable(TableId::InboundGroupSessionsV2) by {
            assert(init[i] == ops[i]);
        }
        lemma_apply_ops_keeps_records(s, init);
        lemma_apply_ops_wf(s, init);
        assert(ops.last() == ops[ops.len() - 1]);
        if let Ok(s2) = apply_ops(s, init) {
            if s2.legacy.len() == 0 {
                assert(s2.legacy =~= Seq::<LegacyRecordView>::empty());
            }
            if s2.sessions.len() == 0 {
                assert(s2.sessions =~= Seq::<SessionRecordView>::empty());
            }
        }
    }
}

/// The first upgrade transaction from a version between 2 and 6 leaves the
/// records of both inbound-session tables as they are.
proof fn lemma_schema_keeps_records(s: StoreView)
    requires
        s.wf(),
        2 <= s.version <= 6,
    ensures
        phase_schema_up_to_v6(s) is Ok ==> phase_schema_up_to_v6(s)->Ok_0.legacy == s.legacy
            && phase_schema_up_to_v6(s)->Ok_0.sessions == s.sessions
            && phase_schema_up_to_v6(s)->Ok_0.version == 6,
{
    let e = s.tables == Set::<TableId>::empty();
    let h = s.tables.contains(TableId::OutgoingSecretRequests);
    let v = s.version as nat;
    let none = Seq::<SchemaOp>::empty();
    assert(keeps_session_tables(none));
    assert(keeps_session_tables(ops_v1()));
    assert(keeps_session_tables(ops_v3()));
    assert(keeps_session_tables(ops_v4()));
    assert(keeps_session_tables(ops_v5(h)));
    assert(keeps_session_tables(ops_v6()));
    let p1 = ops_if(e, ops_v1());
    let p2 = ops_if(v < 2, ops_v2());
    assert(p2 =~= none);
    let p3 = ops_if(v < 3, ops_v3());
    let p4 = ops_if(v < 4, ops_v4());
    let p5 = ops_if(v < 5, ops_v5(h));
    let p6 = ops_if(v < 6, ops_v6());
    lemma_keeps_concat(p1, p2);
    lemma_keeps_concat(p1 + p2, p3);
    lemma_keeps_concat(p1 + p2 + p3, p4);
    lemma_keeps_concat(p1 + p2 + p3 + p4, p5);
    lemma_keeps_concat(p1 + p2 + p3 + p4 + p5, p6);
    lemma_apply_ops_keeps_records(s, ops_up_to_v6(e, v, h));
}

/// The store that an upgrade from a version between 2 and 6 leaves, in the
/// terms of the two record passes.
proof fn lemma_upgrade_record_passes(s: StoreView)
    requires
        s.wf(),
        2 <= s.version <= 6,
        upgrade(s).1 is Ok,
    ensures
        migrate_records(s.legacy, s.sessions) is Ok,
        fixup_records(migrated_table(s), Seq::empty()) == Ok::<
            Seq<SessionRecordView>,
            MigrationError,
        >(upgrade(s).0.sessions),
{
    let ps = plan(s.version);
    assert(open_default(s) == s);
    assert(ps.take(6) =~= ps);
    lemma_run_step(ps, s, 5);
    lemma_run_step(ps, s, 4);
    lemma_run_step(ps, s, 3);
    lemma_run_step(ps, s, 2);
    lemma_run_step(ps, s, 1);
    lemma_run_step(ps, s, 0);
    assert(ps.take(0) =~= Seq::<Phase>::empty());
    let c1 = run_phases(ps.take(1), s).0;
    let c2 = run_phases(ps.take(2), s).0;
    let c3 = run_phases(ps.take(3), s).0;
    let c4 = run_phases(ps.take(4), s).0;
    let c5 = run_phases(ps.take(5), s).0;
    let c6 = run_phases(ps.take(6), s).0;
    lemma_schema_keeps_records(s);
    assert(c1.legacy == s.legacy && c1.sessions == s.sessions);
    assert(c2.sessions == migrated_table(s));
    let ops7 = ops_if(true, ops_v7());
    assert(ops7.drop_last() =~= Seq::<SchemaOp>::empty());
    assert(c3.sessions == c2.sessions);
    assert(c5.sessions == c4.sessions);
    assert(c6 == c5);
}

/// Convergence: after an upgrade from a version between 2 and 6 completes,
/// every session that the old table held is found under its canonical key
/// in the new table, as a record of the same room and session id, and
/// every record there sits under its own canonical key; provided no record
/// sits under a stale key that is canonical for another.
pub proof fn lemma_keys_converge(s: StoreView)
    requires
        s.wf(),
        2 <= s.version <= 6,
        upgrade(s).1 is Ok,
        no_stale_clash(migrated_table(s)),
    ensures
        forall|i: int|
            0 <= i < s.legacy.len() ==> (#[trigger] s.legacy[i]).value is Some && exists|j: int|
                0 <= j < upgrade(s).0.sessions.len() && (#[trigger] upgrade(s).0.sessions[j]).key
                    == canonical_key(s.legacy[i].value->0) && upgrade(s).0.sessions[j].session is Some
                    && upgrade(s).0.sessions[j].session->0.room_id == s.legacy[i].value->0.room_id
                    && upgrade(s).0.sessions[j].session->0.session_id
                    == s.legacy[i].value->0.session_id,
        all_canonical(upgrade(s).0.sessions),
{
    lemma_upgrade_record_passes(s);
    let t = migrated_table(s);
    let u = upgrade(s).0.sessions;
    lemma_migrate_result(s.legacy, s.sessions);
    lemma_fixup_reaches(t, Seq::empty());
    lemma_fixup_canonical(t, Seq::empty());
    assert forall|i: int| 0 <= i < s.legacy.len() implies (#[trigger] s.legacy[i]).value is Some
        && exists|j: int|
        0 <= j < u.len() && (#[trigger] u[j]).key == canonical_key(s.legacy[i].value->0)
            && u[j].session is Some && u[j].session->0.room_id == s.legacy[i].value->0.room_id
            && u[j].session->0.session_id == s.legacy[i].value->0.session_id by {
        let v = s.legacy[i].value->0;
        let m = migrated_record(s.legacy[i], v);
        assert(t.contains(m));
        let k = choose|k: int| 0 <= k < t.len() && t[k] == m;
        assert(t[k].session is Some);
        assert(has_key(u, canonical_key(v)));
        let j = choose|j: int| 0 <= j < u.len() && #[trigger] u[j].key == canonical_key(v);
        assert(u[j].session is Some);
        let w = u[j].session->0;
        lemma_encode_key_injective(
            TableId::InboundGroupSessionsV2,
            w.room_id,
            w.session_id,
            v.room_id,
            v.session_id,
        );
    }
}

/// Where canonical keys are distinct and none is a stale key of another
/// record, the key correction drops no record.
proof fn lemma_fixup_count(scan: Seq<SessionRecordView>, done: Seq<SessionRecordView>)
    requires
        canonical_distinct(scan),
        no_stale_clash(scan),
        forall|b: int| 0 <= b < scan.len() ==> !has_key(done, canonical_key((#[trigger] scan[b]).session->0)),
    ensures
        fixup_records(scan, done) is Ok ==> fixup_records(scan, done)->Ok_0.len() == done.len()
            + scan.len(),
    decreases scan.len(),
{
    if scan.len() > 0 {
        let rest = scan.drop_first();
        lemma_no_stale_clash_rest(scan);
        assert(canonical_distinct(rest)) by {
            assert forall|i: int| 0 <= i < rest.len() implies (#[trigger] rest[i]).session is Some by {
                assert(rest[i] == scan[i + 1]);
            }
            assert forall|i: int, j: int|
                0 <= i < rest.len() && 0 <= j < rest.len() && i != j implies canonical_key(
                (#[trigger] rest[i]).session->0,
            ) != canonical_key((#[trigger] rest[j]).session->0) by {
                assert(rest[i] == scan[i + 1] && rest[j] == scan[j + 1]);
            }
        }
        assert(scan[0].session is Some);
        let v = scan[0].session->0;
        let k = canonical_key(v);
        assert(!has_key(done, k));
        assert(!has_key(rest, k)) by {
            if has_key(rest, k) {
                let j = choose|j: int| 0 <= j < rest.len() && #[trigger] rest[j].key == k;
                assert(rest[j] == scan[j + 1]);
                assert(scan[j + 1].key == canonical_key(scan[0].session->0));
                assert(canonical_key(scan[j + 1].session->0) != canonical_key(scan[0].session->0));
            }
        }
        let x = if k == scan[0].key {
            scan[0]
        } else {
            relocated(scan[0], k)
        };
        let d2 = insert_session(done, x);
        lemma_insert_session(done, x);
        assert(fixup_records(scan, done) == fixup_records(rest, d2));
        assert forall|b: int| 0 <= b < rest.len() implies !has_key(
            d2,
            canonical_key((#[trigger] rest[b]).session->0),
        ) by {
            assert(rest[b] == scan[b + 1]);
            assert(canonical_key(scan[0].session->0) != canonical_key(scan[b + 1].session->0));
        }
        lemma_fixup_count(rest, d2);
    }
}

/// No data loss: an upgrade from a version between 2 and 6, with the new
/// table absent or empty, that completes leaves as many records in the new
/// table as the old table held, provided no two canonical keys collide and
/// no record sits under a stale key that is canonical for another.
pub proof fn lemma_no_data_loss(s: StoreView)
    requires
        s.wf(),
        2 <= s.version <= 6,
        s.sessions.len() == 0,
        upgrade(s).1 is Ok,
        canonical_distinct(migrated_table(s)),
        no_stale_clash(migrated_table(s)),
    ensures
        upgrade(s).0.sessions.len() == s.legacy.len(),
{
    lemma_upgrade_record_passes(s);
    lemma_migrate_result(s.legacy, s.sessions);
    lemma_fixup_count(migrated_table(s), Seq::empty());
}

/// The key correction keeps `x`, which sits under its canonical key, as the
/// one record under that key.
proof fn lemma_fixup_existing(scan: Seq<SessionRecordView>, done: Seq<SessionRecordView>, x: SessionRecordView)
    requires
        x.session is Some,
        x.key == canonical_key(x.session->0),
        scan.contains(x) || done.contains(x),
        forall|j: int| 0 <= j < scan.len() && (#[trigger] scan[j]).key == x.key ==> scan[j] == x,
        forall|j: int| 0 <= j < done.len() && (#[trigger] done[j]).key == x.key ==> done[j] == x,
    ensures
        fixup_records(scan, done) is Ok ==> fixup_records(scan, done)->Ok_0.contains(x) && forall|j: int|
            0 <= j < fixup_records(scan, done)->Ok_0.len() && (#[trigger] fixup_records(
                scan,
                done,
            )->Ok_0[j]).key == x.key ==> fixup_records(scan, done)->Ok_0[j] == x,
    decreases scan.len(),
{
    if scan.len() == 0 {
    } else if let Some(v) = scan[0].session {
        let rest = scan.drop_first();
        let k = canonical_key(v);
        let y = if k == scan[0].key {
            scan[0]
        } else {
            relocated(scan[0], k)
        };
        let moves = k == scan[0].key || !(has_key(done, k) || has_key(rest, k));
        let d2 = if moves {
            insert_session(done, y)
        } else {
            done
        };
        assert(fixup_records(scan, done) == fixup_records(rest, d2));
        lemma_insert_session(done, y);
        assert forall|j: int| 0 <= j < rest.len() && (#[trigger] rest[j]).key == x.key implies rest[j]
            == x by {
            assert(rest[j] == scan[j + 1]);
        }
        if scan[0] != x {
            assert(scan[0].key != x.key);
            if scan.contains(x) {
                let i = choose|i: int| 0 <= i < scan.len() && scan[i] == x;
                assert(i != 0);
                assert(rest[i - 1] == x);
            }
            if moves && k != scan[0].key {
                assert(k != x.key) by {
                    if k == x.key {
                        if scan.contains(x) {
                            let i = choose|i: int| 0 <= i < scan.len() && scan[i] == x;
                            assert(rest[i - 1].key == k);
                        } else {
                            let i = choose|i: int| 0 <= i < done.len() && done[i] == x;
                            assert(done[i].key == k);
                        }
                    }
                }
            }
        }
        assert(rest.contains(x) || d2.contains(x));
        assert forall|j: int| 0 <= j < d2.len() && (#[trigger] d2[j]).key == x.key implies d2[j] == x by {
            if moves && d2[j] != y {
                let i = choose|i: int| 0 <= i < done.len() && done[i] == d2[j];
                assert(done[i].key == x.key);
            }
        }
        lemma_fixup_existing(rest, d2, x);
    }
}

/// Existing wins: where one record sits under its canonical key and another
/// record has that same canonical key, the key correction leaves exactly one
/// record under the key, and it is the one that was already there.
pub proof fn lemma_existing_wins(s: StoreView, e: int, d: int)
    requires
        s.wf(),
        0 <= e < s.sessions.len(),
        0 <= d < s.sessions.len(),
        e != d,
        s.sessions[e].session is Some,
        s.sessions[e].key == canonical_key(s.sessions[e].session->0),
        s.sessions[d].session is Some,
        canonical_key(s.sessions[d].session->0) == s.sessions[e].key,
        phase_fix_keys(s) is Ok,
    ensures
        keys_unique(phase_fix_keys(s)->Ok_0.sessions),
        phase_fix_keys(s)->Ok_0.sessions.contains(s.sessions[e]),
        forall|j: int|
            0 <= j < phase_fix_keys(s)->Ok_0.sessions.len() && (#[trigger] phase_fix_keys(
                s,
            )->Ok_0.sessions[j]).key == s.sessions[e].key ==> phase_fix_keys(s)->Ok_0.sessions[j]
                == s.sessions[e],
{
    let x = s.sessions[e];
    assert(s.sessions.contains(x));
    lemma_sorted_unique(s.sessions);
    lemma_phase_wf(Phase::FixKeys, s);
    lemma_sorted_unique(phase_fix_keys(s)->Ok_0.sessions);
    lemma_fixup_existing(s.sessions, Seq::empty(), x);
}

/// Before the record at `i` is read, the key `kk` stays free; then that
/// record is written under it, and it stays the one record there.
proof fn lemma_fixup_first_mover(
    scan: Seq<SessionRecordView>,
    done: Seq<SessionRecordView>,
    i: int,
    kk: Seq<u8>,
)
    requires
        0 <= i < scan.len(),
        scan[i].session is Some,
        canonical_key(scan[i].session->0) == kk,
        forall|j: int| 0 <= j < scan.len() ==> (#[trigger] scan[j]).key != kk,
        !has_key(done, kk),
        forall|j: int|
            0 <= j < i && (#[trigger] scan[j]).session is Some ==> canonical_key(scan[j].session->0)
                != kk,
    ensures
        fixup_records(scan, done) is Ok ==> fixup_records(scan, done)->Ok_0.contains(
            relocated(scan[i], kk),
        ) && forall|j: int|
            0 <= j < fixup_records(scan, done)->Ok_0.len() && (#[trigger] fixup_records(
                scan,
                done,
            )->Ok_0[j]).key == kk ==> fixup_records(scan, done)->Ok_0[j] == relocated(scan[i], kk),
    decreases i,
{
    let rest = scan.drop_first();
    assert forall|j: int| 0 <= j < rest.len() implies (#[trigger] rest[j]).key != kk by {
        assert(rest[j] == scan[j + 1]);
    }
    if i == 0 {
        let x = relocated(scan[0], kk);
        assert(scan[0].key != kk);
        assert(!has_key(rest, kk));
        let d2 = insert_session(done, x);
        lemma_insert_session(done, x);
        assert(fixup_records(scan, done) == fixup_records(rest, d2));
        assert forall|j: int| 0 <= j < d2.len() && (#[trigger] d2[j]).key == kk implies d2[j] == x by {
            if d2[j] != x {
                let m = choose|m: int| 0 <= m < done.len() && done[m] == d2[j];
                assert(done[m].key == kk);
            }
        }
        lemma_fixup_existing(rest, d2, x);
    } else if let Some(v) = scan[0].session {
        let k0 = canonical_key(v);
        assert(k0 != kk);
        let y = if k0 == scan[0].key {
            scan[0]
        } else {
            relocated(scan[0], k0)
        };
        let moves = k0 == scan[0].key || !(has_key(done, k0) || has_key(rest, k0));
        let d2 = if moves {
            insert_session(done, y)
        } else {
            done
        };
        assert(fixup_records(scan, done) == fixup_records(rest, d2));
        lemma_insert_session(done, y);
        assert(y.key != kk);
        assert(!has_key(d2, kk));
        assert(rest[i - 1] == scan[i]);
        assert forall|j: int|
            0 <= j < i - 1 && (#[trigger] rest[j]).session is Some implies canonical_key(
            rest[j].session->0,
        ) != kk by {
            assert(rest[j] == scan[j + 1]);
        }
        lemma_fixup_first_mover(rest, d2, i - 1, kk);
    }
}

/// Smallest stale key wins: where no record holds a key, and records under
/// other keys have it as their canonical key, the key correction writes the
/// one with the smallest key under it, and leaves no other record there.
pub proof fn lemma_smallest_stale_key_wins(s: StoreView, i: int)
    requires
        s.wf(),
        0 <= i < s.sessions.len(),
        s.sessions[i].session is Some,
        !has_key(s.sessions, canonical_key(s.sessions[i].session->0)),
        forall|j: int|
            0 <= j < s.sessions.len() && (#[trigger] s.sessions[j]).session is Some && canonical_key(
                s.sessions[j].session->0,
            ) == canonical_key(s.sessions[i].session->0) ==> !key_lt(
                s.sessions[j].key,
                s.sessions[i].key,
            ),
        phase_fix_keys(s) is Ok,
    ensures
        phase_fix_keys(s)->Ok_0.sessions.contains(
            relocated(s.sessions[i], canonical_key(s.sessions[i].session->0)),
        ),
        forall|j: int|
            0 <= j < phase_fix_keys(s)->Ok_0.sessions.len() && (#[trigger] phase_fix_keys(
                s,
            )->Ok_0.sessions[j]).key == canonical_key(s.sessions[i].session->0)
                ==> phase_fix_keys(s)->Ok_0.sessions[j] == relocated(
                s.sessions[i],
                canonical_key(s.sessions[i].session->0),
            ),
{
    let t = s.sessions;
    let kk = canonical_key(t[i].session->0);
    assert forall|j: int| 0 <= j < t.len() implies (#[trigger] t[j]).key != kk by {
        if t[j].key == kk {
            assert(has_key(t, kk));
        }
    }
    assert forall|j: int| 0 <= j < i && (#[trigger] t[j]).session is Some implies canonical_key(
        t[j].session->0,
    ) != kk by {
        assert(key_lt(t[j].key, t[i].key));
    }
    lemma_fixup_first_mover(t, Seq::empty(), i, kk);
}

/// Applying `a + b` is applying `a`, then `b` from where `a` left the store.
proof fn lemma_apply_ops_concat(s: StoreView, a: Seq<SchemaOp>, b: Seq<SchemaOp>)
    ensures
        apply_ops(s, a + b) == match apply_ops(s, a) {
            Ok(s2) => apply_ops(s2, b),
            Err(e) => Err(e),
        },
    decreases b.len(),
{
    if b.len() == 0 {
        assert(a + b =~= a);
    } else {
        assert((a + b).drop_last() =~= a + b.drop_last());
        assert((a + b).last() == b.last());
        lemma_apply_ops_concat(s, a, b.drop_last());
    }
}

/// The first upgrade transaction of a store that was never created commits,
/// and leaves both inbound-session tables, empty.
#[verifier::spinoff_prover]
#[verifier::rlimit(60)]
proof fn lemma_schema_from_absent()
    ensures
        phase_schema_up_to_v6(open_default(StoreView::absent())) is Ok,
        phase_schema_up_to_v6(open_default(StoreView::absent()))->Ok_0.version == 6,
        phase_schema_up_to_v6(open_default(StoreView::absent()))->Ok_0.tables.contains(
            TableId::InboundGroupSessionsV1,
        ),
        phase_schema_up_to_v6(open_default(StoreView::absent()))->Ok_0.tables.contains(
            TableId::InboundGroupSessionsV2,
        ),
        phase_schema_up_to_v6(open_default(StoreView::absent()))->Ok_0.legacy.len() == 0,
        phase_schema_up_to_v6(open_default(StoreView::absent()))->Ok_0.sessions.len() == 0,
{
    let s1 = open_default(StoreView::absent());
    assert(s1.version == 1);
    assert(s1.tables == Set::<TableId>::empty());
    let ops = ops_up_to_v6(true, 1, false);
    assert(ops == ops_v1() + ops_v2() + ops_v3() + ops_v4() + ops_v5(false) + ops_v6()) by {
        assert(ops_v5(false) =~= seq![
            SchemaOp::CreateTable(TableId::GossipRequests),
            SchemaOp::CreateIndex(IndexId::GossipRequestsUnsent),
            SchemaOp::CreateIndex(IndexId::GossipRequestsByInfo),
        ]);
    }
    reveal_with_fuel(apply_ops, 10);
    let a1 = apply_ops(s1, ops_v1());
    assert(a1 is Ok);
    let a2 = apply_ops(a1->Ok_0, ops_v2());
    assert(a2 is Ok);
    let a3 = apply_ops(a2->Ok_0, ops_v3());
    assert(a3 is Ok);
    let a4 = apply_ops(a3->Ok_0, ops_v4());
    assert(a4 is Ok);
    let a5 = apply_ops(a4->Ok_0, ops_v5(false));
    assert(ops_v5(false) =~= seq![
        SchemaOp::CreateTable(TableId::GossipRequests),
        SchemaOp::CreateIndex(IndexId::GossipRequestsUnsent),
        SchemaOp::CreateIndex(IndexId::GossipRequestsByInfo),
    ]);
    assert(a5 is Ok);
    let a6 = apply_ops(a5->Ok_0, ops_v6());
    assert(a6 is Ok);
    lemma_apply_ops_concat(s1, ops_v1(), ops_v2());
    lemma_apply_ops_concat(s1, ops_v1() + ops_v2(), ops_v3());
    lemma_apply_ops_concat(s1, ops_v1() + ops_v2() + ops_v3(), ops_v4());
    lemma_apply_ops_concat(s1, ops_v1() + ops_v2() + ops_v3() + ops_v4(), ops_v5(false));
    lemma_apply_ops_concat(
        s1,
        ops_v1() + ops_v2() + ops_v3() + ops_v4() + ops_v5(false),
        ops_v6(),
    );
    let c6 = a6->Ok_0;
    assert(c6.tables.contains(TableId::InboundGroupSessionsV1));
    assert(c6.tables.contains(TableId::InboundGroupSessionsV2));
    assert(c6.legacy.len() == 0);
    assert(c6.sessions.len() == 0);
}

/// An upgrade of a store that was never created completes.
#[verifier::spinoff_prover]
proof fn lemma_upgrade_from_absent()
    ensures
        upgrade(StoreView::absent()).1 is Ok,
        upgrade(StoreView::absent()).0.version == 8,
{
    lemma_schema_from_absent();
    let s1 = open_default(StoreView::absent());
    let ps = plan(1);
    let full = seq![
        Phase::SchemaUpToV6,
        Phase::MigrateData,
        Phase::SchemaV7,
        Phase::FixKeys,
        Phase::SchemaV8,
        Phase::OpenCurrent,
    ];
    assert(ps =~= full);
    let u6 = phase_schema_up_to_v6(s1)->Ok_0;
    assert(u6.legacy =~= Seq::<LegacyRecordView>::empty());
    let md = StoreView { legacy: Seq::empty(), sessions: u6.sessions, ..u6 };
    assert(apply_phase(Phase::MigrateData, u6) == Ok::<StoreView, MigrationError>(md));
    let ops7 = ops_if(true, ops_v7());
    assert(ops7.drop_last() =~= Seq::<SchemaOp>::empty());
    assert(apply_phase(Phase::SchemaV7, md) is Ok);
    let v7 = apply_phase(Phase::SchemaV7, md)->Ok_0;
    assert(v7.version == 7);
    assert(v7.tables.contains(TableId::InboundGroupSessionsV2));
    assert(v7.sessions.len() == 0);
    assert(v7.sessions =~= Seq::<SessionRecordView>::empty());
    assert(fixup_records(v7.sessions, Seq::empty()) is Ok);
    assert(apply_phase(Phase::FixKeys, v7) is Ok);
    let fk = apply_phase(Phase::FixKeys, v7)->Ok_0;
    assert(fk.version == 7);
    assert(apply_phase(Phase::SchemaV8, fk) is Ok);
    let v8 = apply_phase(Phase::SchemaV8, fk)->Ok_0;
    assert(apply_phase(Phase::OpenCurrent, v8) == Ok::<StoreView, MigrationError>(v8));
    reveal_with_fuel(run_phases, 7);
    assert(full[0] == Phase::SchemaUpToV6);
    assert(upgrade(StoreView::absent()) == run_phases(full, s1));
}

/// Idempotence from scratch: an upgrade of a store that was never created
/// completes at the current version, and a second upgrade right after it
/// changes nothing.
pub proof fn lemma_upgrade_twice_from_absent()
    ensures
        upgrade(StoreView::absent()).1 is Ok,
        upgrade(StoreView::absent()).0.version == 8,
        upgrade(upgrade(StoreView::absent()).0) == (
            upgrade(StoreView::absent()).0,
            Ok::<(), MigrationError>(()),
        ),
{
    lemma_upgrade_from_absent();
    lemma_upgrade_idempotent(StoreView::absent());
}

} // verus!
