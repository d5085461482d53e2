use vstd::prelude::*;
use crate::assoc::{has_key, lemma_map_contains, lemma_map_index, lemma_map_update};
use crate::executor::{check_first_real_error, ExecError};
use crate::graph::{apply_stmts, first_failure, KeyRec};
use crate::ids::copy_bytes;
use crate::report_key::{ReportKey, ReportKeyPublic};
use crate::statements::{stmts_v, Statement};
use crate::store::{key_pairs, key_rec_v, MemStore, ReportKeyRecord};

verus! {

/// Why a report-key operation was rejected.
#[derive(Clone, Copy, Debug, PartialEq, Eq, Structural)]
pub enum ReportKeyError {
    /// No unrevoked record with that id exists.
    NotFound,
}

/// Create the report-key record inside one transaction. The create fails
/// when the id already exists - the conflict is surfaced as the first real
/// error, never absorbed.
pub fn create_report_key(store: &mut MemStore, report_key: &ReportKey) -> (r: Result<
    (),
    ExecError,
>)
    requires
        old(store).wf(),
    ensures
        final(store).wf(),
        r is Ok <==> !old(store)@.report_keys.dom().contains(report_key.id),
        r is Ok ==> final(store)@.report_keys == old(store)@.report_keys.insert(
            report_key.id,
            KeyRec {
                description: crate::store::opt_bytes_v(report_key.description),
                created_by: report_key.created_by,
                revoked_at: None,
                revoked_by: None,
            },
        ) && final(store)@.resources == old(store)@.resources && final(store)@.contains == old(
            store,
        )@.contains && final(store)@.events == old(store)@.events,
        r is Err ==> *final(store) == *old(store),
{
    let d = match &report_key.description {
        Some(d) => Some(copy_bytes(d)),
        None => None,
    };
    let mut stmts: Vec<Statement> = Vec::new();
    stmts.push(
        Statement::CreateReportKey {
            key_id: report_key.id,
            description: d,
            created_by: report_key.created_by,
        },
    );
    let ghost sv = stmts_v(stmts@);
    let outcomes = store.execute_transaction(&stmts);
    let r = check_first_real_error(&outcomes);
    proof {
        if old(store)@.report_keys.dom().contains(report_key.id) {
            assert(first_failure(old(store)@, sv, 0) == Some((0int, report_key.id)));
            assert(outcomes@[0] is Failed);
            assert(r is Err);
        } else {
            assert(!crate::graph::stmt_fails(old(store)@, sv[0]));
            assert(first_failure(crate::graph::apply_stmt(old(store)@, sv[0]), sv, 1) is None);
            assert(first_failure(old(store)@, sv, 0) is None);
            assert(forall|j: int| 0 <= j < outcomes@.len() ==> (#[trigger] outcomes@[j]) is Succeeded);
            assert(r is Ok);
            assert(apply_stmts(old(store)@, sv, 0) == apply_stmts(
                crate::graph::apply_stmt(old(store)@, sv[0]),
                sv,
                1,
            ));
        }
    }
    r
}

/// Mark the record with a revocation timestamp and actor, once: an absent or
/// already-revoked id reports not-found, as the update matches no row.
pub fn revoke_report_key(store: &mut MemStore, key_id: u32, revoked_by: u128, revoked_at: i64) -> (r:
    Result<(), ReportKeyError>)
    requires
        old(store).wf(),
    ensures
        final(store).wf(),
        r is Ok <==> (old(store)@.report_keys.dom().contains(key_id) && old(
            store,
        )@.report_keys[key_id].revoked_at is None),
        r is Ok ==> final(store)@.report_keys == old(store)@.report_keys.insert(
            key_id,
            KeyRec {
                description: old(store)@.report_keys[key_id].description,
                created_by: old(store)@.report_keys[key_id].created_by,
                revoked_at: Some(revoked_at),
                revoked_by: Some(revoked_by),
            },
        ) && final(store)@.resources == old(store)@.resources && final(store)@.contains == old(
            store,
        )@.contains && final(store)@.events == old(store)@.events,
        r is Err ==> *final(store) == *old(store),
{
    proof {
        lemma_map_contains(key_pairs(store.report_keys@), key_id);
    }
    let idx_opt = find_key_index(store, key_id);
    match idx_opt {
        None => Err(ReportKeyError::NotFound),
        Some(i) => {
            proof {
                lemma_map_index(key_pairs(store.report_keys@), i as int);
            }
            if store.report_keys[i].revoked_at.is_some() {
                return Err(ReportKeyError::NotFound);
            }
            let d = match &store.report_keys[i].description {
                Some(d) => Some(copy_bytes(d)),
                None => None,
            };
            let rec = ReportKeyRecord {
                id: key_id,
                description: d,
                created_by: store.report_keys[i].created_by,
                revoked_at: Some(revoked_at),
                revoked_by: Some(revoked_by),
            };
            let ghost nv = key_rec_v(rec);
            let ghost oldpairs = key_pairs(store.report_keys@);
            store.report_keys[i] = rec;
            proof {
                assert(key_pairs(store.report_keys@) =~= oldpairs.update(i as int, (key_id, nv)));
                lemma_map_update(oldpairs, i as int, nv);
                assert(store@.report_keys =~= old(store)@.report_keys.insert(
                    key_id,
                    KeyRec {
                        description: old(store)@.report_keys[key_id].description,
                        created_by: old(store)@.report_keys[key_id].created_by,
                        revoked_at: Some(revoked_at),
                        revoked_by: Some(revoked_by),
                    },
                ));
                assert forall|j: int|
                    0 <= j < store.resources@.len() implies crate::assoc::unique_keys(
                    crate::ids::attrs_v((#[trigger] store.resources@[j]).1.attributes),
                ) by {
                    assert(store.resources@[j] == old(store).resources@[j]);
                }
            }
            Ok(())
        },
    }
}

fn find_key_index(store: &MemStore, key_id: u32) -> (r: Option<usize>)
    ensures
        match r {
            Some(i) => i < store.report_keys@.len() && key_pairs(store.report_keys@)[i as int].0
                == key_id,
            None => !has_key(key_pairs(store.report_keys@), key_id),
        },
{
    let n = store.report_keys.len();
    let mut i: usize = 0;
    while i < n
        invariant
            n == store.report_keys@.len(),
            i <= n,
            forall|j: int| 0 <= j < i ==> key_pairs(store.report_keys@)[j].0 != key_id,
        decreases n - i,
    {
        if store.report_keys[i].id == key_id {
            return Some(i);
        }
        i += 1;
    }
    None
}

/// The activity check that a validated credential still requires: whether
/// the key id exists and carries no revocation mark.
pub fn report_key_is_valid(store: &MemStore, key_id: u32) -> (r: bool)
    requires
        store.wf(),
    ensures
        r == (store@.report_keys.dom().contains(key_id)
            && store@.report_keys[key_id].revoked_at is None),
{
    proof {
        lemma_map_contains(key_pairs(store.report_keys@), key_id);
    }
    match find_key_index(store, key_id) {
        None => false,
        Some(i) => {
            proof {
                lemma_map_index(key_pairs(store.report_keys@), i as int);
            }
            store.report_keys[i].revoked_at.is_none()
        },
    }
}

/// The filter of the listing, as a predicate value so that every use names
/// the same function.
pub open spec fn active_pred() -> spec_fn((u32, KeyRec)) -> bool {
    |p: (u32, KeyRec)| p.1.revoked_at is None
}

/// The listable value of one public entry.
pub open spec fn key_public_v(p: ReportKeyPublic) -> (u32, Option<Seq<u8>>, Option<i64>) {
    (p.id, crate::store::opt_bytes_v(p.description), p.created_at)
}

/// What listing returns: the unrevoked records, in store order, reduced to
/// their safe fields. The model store does not record creation times, so
/// that field is absent.
pub open spec fn listed_keys(store: MemStore) -> Seq<(u32, Option<Seq<u8>>, Option<i64>)> {
    key_pairs(store.report_keys@).filter(active_pred()).map_values(
        |p: (u32, KeyRec)| (p.0, p.1.description, Option::<i64>::None),
    )
}

/// List the unrevoked report keys: exactly the active records, in store
/// order, with only their safe fields.
pub fn list_report_keys(store: &MemStore) -> (r: Vec<ReportKeyPublic>)
    ensures
        r@.map_values(|p: ReportKeyPublic| key_public_v(p)) == listed_keys(*store),
{
    let ghost ap = active_pred();
    let mut r: Vec<ReportKeyPublic> = Vec::new();
    let n = store.report_keys.len();
    let mut i: usize = 0;
    while i < n
        invariant
            n == store.report_keys@.len(),
            i <= n,
            ap == active_pred(),
            r@.map_values(|p: ReportKeyPublic| key_public_v(p)) == key_pairs(
                store.report_keys@,
            ).take(i as int).filter(ap).map_values(
                |p: (u32, KeyRec)| (p.0, p.1.description, Option::<i64>::None),
            ),
        decreases n - i,
    {
        let ghost pre = r@.map_values(|p: ReportKeyPublic| key_public_v(p));
        let ghost pairs = key_pairs(store.report_keys@);
        proof {
            assert(pairs.take(i + 1) =~= pairs.take(i as int) + seq![pairs[i as int]]);
            crate::assoc::lemma_filter_one(pairs.take(i as int), pairs[i as int], ap);
            assert(pairs[i as int] == (
                store.report_keys@[i as int].id,
                key_rec_v(store.report_keys@[i as int]),
            ));
        }
        if store.report_keys[i].revoked_at.is_none() {
            let d = match &store.report_keys[i].description {
                Some(d) => Some(copy_bytes(d)),
                None => None,
            };
            let p = ReportKeyPublic { id: store.report_keys[i].id, description: d, created_at: None };
            let ghost pv = key_public_v(p);
            r.push(p);
            proof {
                assert(pv == (
                    pairs[i as int].0,
                    pairs[i as int].1.description,
                    Option::<i64>::None,
                ));
                assert(r@.map_values(|p: ReportKeyPublic| key_public_v(p)) =~= pre.push(pv));
                assert(r@.map_values(|p: ReportKeyPublic| key_public_v(p)) =~= pairs.take(
                    i + 1,
                ).filter(ap).map_values(
                    |p: (u32, KeyRec)| (p.0, p.1.description, Option::<i64>::None),
                ));
            }
        } else {
            proof {
                assert(!ap(pairs[i as int]));
            }
        }
        i += 1;
    }
    proof {
        assert(key_pairs(store.report_keys@).take(n as int) =~= key_pairs(store.report_keys@));
    }
    r
}

} // verus!
