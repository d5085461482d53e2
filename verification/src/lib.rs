//! The resource/event graph ingestion and query engine of a multi-tenant
//! infrastructure tracker. Scanning agents submit trees of typed resources
//! and batches of typed interaction events; the engine computes composite
//! hierarchical identities, compiles each submission into an ordered list of
//! idempotent upsert statements for a transactional backing store, answers
//! read queries with a global-container closure over the result set, and
//! mints and validates the tenant-scoped bearer credentials that authorize
//! ingestion. The statement semantics, an in-memory model store, and the
//! credential codec are specified and verified here; process boundaries
//! (HTTP, configuration, the physical store) stay outside the crate.

pub mod account;
pub mod assoc;
pub mod codec;
pub mod conn_cache;
pub mod crypto;
pub mod executor;
pub mod graph;
pub mod identity;
pub mod ids;
pub mod queries;
pub mod query;
pub mod report;
pub mod report_key;
pub mod report_keys;
pub mod statements;
pub mod store;

use vstd::prelude::*;

verus! {

use vstd::string::StringExecFns;

/// Name of the per-tenant backing-store table that holds a tenant's resource
/// graph, derived from the tenant's account id.
pub fn dynamodb_resources_table_name_for_account(account_id: &str) -> (r: String)
    ensures
        r@ == "archodex-service-data-a"@ + account_id@ + "-resources"@,
{
    let mut s = String::new();
    s.append("archodex-service-data-a");
    s.append(account_id);
    s.append("-resources");
    s
}

/// Hand out the next statement-parameter binding name, `bind_` followed by
/// the counter's value, and advance the counter. Callers share one counter
/// so that binding names never collide within a statement list.
pub fn next_binding(counter: &mut u64) -> (r: String)
    requires
        *old(counter) < u64::MAX,
    ensures
        *final(counter) == *old(counter) + 1,
        r@ == "bind_"@ + crate::codec::dec_str(*old(counter) as nat),
{
    let mut s = "bind_".to_owned();
    let d = crate::codec::u64_dec_string(*counter);
    s.append(d.as_str());
    *counter = *counter + 1;
    s
}

} // verus!
