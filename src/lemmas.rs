//! Facts about the model that the engine and the laws share.
use vstd::prelude::*;

use crate::codec::{
    canonical_key, key_lt, lemma_key_lt_irreflexive, lemma_key_lt_total, lemma_key_lt_transitive,
};
use crate::model::{
    apply_op, apply_ops, fixup_records, has_key, has_legacy_key, insert_legacy, insert_session,
    keys_unique, legacy_slot, legacy_sorted, relocated, session_slot, sessions_sorted,
    LegacyRecordView, MigrationError, SessionRecordView, StoreView,
};
use crate::schema::{IndexId, SchemaOp};

verus! {

/// Once a prefix of `ops` fails, all of `ops` fails with the same error.
pub proof fn lemma_apply_ops_prefix_err(s: StoreView, ops: Seq<SchemaOp>, n: int, e: MigrationError)
    requires
        0 <= n <= ops.len(),
        apply_ops(s, ops.subrange(0, n)) == Err::<StoreView, MigrationError>(e),
    ensures
        apply_ops(s, ops) == Err::<StoreView, MigrationError>(e),
    decreases ops.len() - n,
{
    if n < ops.len() {
        assert(ops.subrange(0, n + 1).drop_last() =~= ops.subrange(0, n));
        lemma_apply_ops_prefix_err(s, ops, n + 1, e);
    } else {
        assert(ops.subrange(0, n) =~= ops);
    }
}

/// The slot of `k` in `t` is after every record not above `k` and before the
/// first one above it.
pub proof fn lemma_session_slot(t: Seq<SessionRecordView>, k: Seq<u8>)
    ensures
        0 <= session_slot(t, k) <= t.len(),
        forall|i: int| 0 <= i < session_slot(t, k) ==> !key_lt(k, #[trigger] t[i].key),
        session_slot(t, k) < t.len() ==> key_lt(k, t[session_slot(t, k)].key),
    decreases t.len(),
{
    if t.len() > 0 && !key_lt(k, t[0].key) {
        lemma_session_slot(t.drop_first(), k);
        assert forall|i: int| 0 <= i < session_slot(t, k) implies !key_lt(k, #[trigger] t[i].key) by {
            if i > 0 {
                assert(t[i] == t.drop_first()[i - 1]);
            }
        }
    }
}

/// The slot of `k` in `t` is after every record not above `k` and before the
/// first one above it.
pub proof fn lemma_legacy_slot(t: Seq<LegacyRecordView>, k: Seq<u8>)
    ensures
        0 <= legacy_slot(t, k) <= t.len(),
        forall|i: int| 0 <= i < legacy_slot(t, k) ==> !key_lt(k, #[trigger] t[i].key),
        legacy_slot(t, k) < t.len() ==> key_lt(k, t[legacy_slot(t, k)].key),
    decreases t.len(),
{
    if t.len() > 0 && !key_lt(k, t[0].key) {
        lemma_legacy_slot(t.drop_first(), k);
        assert forall|i: int| 0 <= i < legacy_slot(t, k) implies !key_lt(k, #[trigger] t[i].key) by {
            if i > 0 {
                assert(t[i] == t.drop_first()[i - 1]);
            }
        }
    }
}

/// Where the records of `t` and `r` stand after `r` is written into `t`.
pub proof fn lemma_insert_session(t: Seq<SessionRecordView>, r: SessionRecordView)
    ensures
        insert_session(t, r).len() == t.len() + 1,
        0 <= session_slot(t, r.key) <= t.len(),
        insert_session(t, r)[session_slot(t, r.key)] == r,
        forall|i: int|
            0 <= i < session_slot(t, r.key) ==> #[trigger] insert_session(t, r)[i] == t[i],
        forall|i: int|
            session_slot(t, r.key) <= i < t.len() ==> insert_session(t, r)[i + 1] == #[trigger] t[i],
        forall|k: Seq<u8>| #[trigger]
            has_key(insert_session(t, r), k) == (has_key(t, k) || r.key == k),
        insert_session(t, r).contains(r),
        forall|y: SessionRecordView| t.contains(y) ==> #[trigger] insert_session(t, r).contains(y),
        forall|j: int|
            0 <= j < insert_session(t, r).len() ==> #[trigger] insert_session(t, r)[j] == r || t.contains(
                insert_session(t, r)[j],
            ),
{
    let p = session_slot(t, r.key);
    let u = insert_session(t, r);
    lemma_session_slot(t, r.key);
    t.insert_ensures(p, r);
    assert forall|k: Seq<u8>| #[trigger] has_key(u, k) == (has_key(t, k) || r.key == k) by {
        if has_key(t, k) {
            let j = choose|j: int| 0 <= j < t.len() && #[trigger] t[j].key == k;
            if j < p {
                assert(u[j].key == k);
            } else {
                assert(u[j + 1].key == k);
            }
        }
        if r.key == k {
            assert(u[p].key == k);
        }
        if has_key(u, k) {
            let j = choose|j: int| 0 <= j < u.len() && #[trigger] u[j].key == k;
            if j < p {
                assert(t[j].key == k);
            } else if j > p {
                assert(t[j - 1].key == k);
            }
        }
    }
    assert(u.contains(r)) by {
        assert(u[p] == r);
    }
    assert forall|y: SessionRecordView| t.contains(y) implies #[trigger] u.contains(y) by {
        let j = choose|j: int| 0 <= j < t.len() && t[j] == y;
        if j < p {
            assert(u[j] == y);
        } else {
            assert(u[j + 1] == y);
        }
    }
    assert forall|j: int| 0 <= j < u.len() implies #[trigger] u[j] == r || t.contains(u[j]) by {
        if j < p {
            assert(u[j] == t[j]);
        } else if j > p {
            assert(u[j] == t[j - 1]);
        }
    }
}

/// Writing a record under a key that is not taken keeps a table sorted.
pub proof fn lemma_insert_session_sorted(t: Seq<SessionRecordView>, r: SessionRecordView)
    requires
        sessions_sorted(t),
        !has_key(t, r.key),
    ensures
        sessions_sorted(insert_session(t, r)),
{
    let p = session_slot(t, r.key);
    let u = insert_session(t, r);
    lemma_insert_session(t, r);
    lemma_session_slot(t, r.key);
    // Every record before the slot is below `r`, every one from it on above.
    assert forall|i: int| 0 <= i < p implies key_lt(#[trigger] t[i].key, r.key) by {
        lemma_key_lt_total(t[i].key, r.key);
        assert(!key_lt(r.key, t[i].key));
        if t[i].key == r.key {
            assert(has_key(t, r.key));
        }
    }
    assert forall|i: int| p <= i < t.len() implies key_lt(r.key, #[trigger] t[i].key) by {
        if i > p {
            lemma_key_lt_transitive(r.key, t[p].key, t[i].key);
        }
    }
    assert forall|i: int, j: int| 0 <= i < j < u.len() implies key_lt(
        #[trigger] u[i].key,
        #[trigger] u[j].key,
    ) by {
        let ti = if i < p {
            i
        } else {
            i - 1
        };
        let tj = if j < p {
            j
        } else {
            j - 1
        };
        if i == p {
            assert(u[j] == t[tj]);
        } else if j == p {
            assert(u[i] == t[ti]);
        } else {
            assert(u[i] == t[ti] && u[j] == t[tj]);
            if ti == tj {
                assert(i < p && j > p);
            }
        }
    }
}

/// Writing a record under a key that is not taken keeps a table sorted.
pub proof fn lemma_insert_legacy_sorted(t: Seq<LegacyRecordView>, r: LegacyRecordView)
    requires
        legacy_sorted(t),
        !has_legacy_key(t, r.key),
    ensures
        legacy_sorted(insert_legacy(t, r)),
{
    let p = legacy_slot(t, r.key);
    let u = insert_legacy(t, r);
    lemma_legacy_slot(t, r.key);
    t.insert_ensures(p, r);
    assert forall|i: int| 0 <= i < p implies key_lt(#[trigger] t[i].key, r.key) by {
        lemma_key_lt_total(t[i].key, r.key);
        assert(!key_lt(r.key, t[i].key));
        if t[i].key == r.key {
            assert(has_legacy_key(t, r.key));
        }
    }
    assert forall|i: int| p <= i < t.len() implies key_lt(r.key, #[trigger] t[i].key) by {
        if i > p {
            lemma_key_lt_transitive(r.key, t[p].key, t[i].key);
        }
    }
    assert forall|i: int, j: int| 0 <= i < j < u.len() implies key_lt(
        #[trigger] u[i].key,
        #[trigger] u[j].key,
    ) by {
        let ti = if i < p {
            i
        } else {
            i - 1
        };
        let tj = if j < p {
            j
        } else {
            j - 1
        };
        if i == p {
            assert(u[p] == r);
            assert(u[j] == t[tj]);
        } else if j == p {
            assert(u[p] == r);
            assert(u[i] == t[ti]);
        } else {
            assert(u[i] == t[ti] && u[j] == t[tj]);
        }
    }
}

/// A sorted table holds no two records under one key.
pub proof fn lemma_sorted_unique(t: Seq<SessionRecordView>)
    requires
        sessions_sorted(t),
    ensures
        keys_unique(t),
{
    assert forall|i: int, j: int|
        0 <= i < t.len() && 0 <= j < t.len() && i != j implies #[trigger] t[i].key
        != #[trigger] t[j].key by {
        if i < j {
            assert(key_lt(t[i].key, t[j].key));
            lemma_key_lt_irreflexive(t[i].key);
        } else {
            assert(key_lt(t[j].key, t[i].key));
            lemma_key_lt_irreflexive(t[j].key);
        }
    }
}

/// A structural change keeps a store well formed.
pub proof fn lemma_apply_ops_wf(s: StoreView, ops: Seq<SchemaOp>)
    requires
        s.wf(),
    ensures
        apply_ops(s, ops) is Ok ==> apply_ops(s, ops)->Ok_0.wf(),
    decreases ops.len(),
{
    if ops.len() > 0 {
        lemma_apply_ops_wf(s, ops.drop_last());
        if let Ok(s2) = apply_ops(s, ops.drop_last()) {
            if let Ok(s3) = apply_op(s2, ops.last()) {
                assert forall|i: IndexId| #[trigger] s3.indexes.contains(i) implies s3.tables.contains(
                    i.spec_table(),
                ) by {
                    assert(s2.indexes.contains(i) || ops.last() == SchemaOp::CreateIndex(i));
                }
                assert(sessions_sorted(Seq::<SessionRecordView>::empty()));
                assert(legacy_sorted(Seq::<LegacyRecordView>::empty()));
            }
        }
    }
}

/// No record of `done` shares a key with a record of `scan`.
pub open spec fn keys_disjoint(done: Seq<SessionRecordView>, scan: Seq<SessionRecordView>) -> bool {
    forall|j: int| 0 <= j < scan.len() ==> !has_key(done, #[trigger] scan[j].key)
}

/// The key correction leaves a sorted table.
pub proof fn lemma_fixup_sorted(scan: Seq<SessionRecordView>, done: Seq<SessionRecordView>)
    requires
        sessions_sorted(scan),
        sessions_sorted(done),
        keys_disjoint(done, scan),
    ensures
        fixup_records(scan, done) is Ok ==> sessions_sorted(fixup_records(scan, done)->Ok_0),
    decreases scan.len(),
{
    if scan.len() > 0 {
        let rest = scan.drop_first();
        assert(sessions_sorted(rest)) by {
            assert forall|i: int, j: int| 0 <= i < j < rest.len() implies key_lt(
                #[trigger] rest[i].key,
                #[trigger] rest[j].key,
            ) by {
                assert(rest[i] == scan[i + 1] && rest[j] == scan[j + 1]);
            }
        }
        if let Some(v) = scan[0].session {
            let k = canonical_key(v);
            if k == scan[0].key {
                let d2 = insert_session(done, scan[0]);
                lemma_insert_session(done, scan[0]);
                lemma_insert_session_sorted(done, scan[0]);
                assert forall|j: int| 0 <= j < rest.len() implies !has_key(d2, #[trigger] rest[j].key) by {
                    assert(rest[j] == scan[j + 1]);
                    assert(key_lt(scan[0].key, scan[j + 1].key));
                    lemma_key_lt_irreflexive(scan[0].key);
                }
                lemma_fixup_sorted(rest, d2);
            } else if has_key(done, k) || has_key(rest, k) {
                assert forall|j: int| 0 <= j < rest.len() implies !has_key(done, #[trigger] rest[j].key) by {
                    assert(rest[j] == scan[j + 1]);
                }
                lemma_fixup_sorted(rest, done);
            } else {
                let r2 = relocated(scan[0], k);
                let d2 = insert_session(done, r2);
                lemma_insert_session(done, r2);
                lemma_insert_session_sorted(done, r2);
                assert forall|j: int| 0 <= j < rest.len() implies !has_key(d2, #[trigger] rest[j].key) by {
                    assert(rest[j] == scan[j + 1]);
                    if rest[j].key == k {
                        assert(has_key(rest, k));
                    }
                }
                lemma_fixup_sorted(rest, d2);
            }
        }
    }
}

} // verus!
