use vstd::prelude::*;
use crate::ids::{attrs_v, RIdV, ResourceId};

verus! {

/// One write statement of the intermediate representation that the compilers
/// emit: statement kind plus typed parameters, independent of any concrete
/// query-language rendering. Every variant is an idempotent conflict-upsert
/// except `CreateReportKey`, which fails when the key id already exists.
#[derive(Debug, PartialEq, Eq)]
pub enum Statement {
    /// Insert the resource record keyed by `id`, writing both timestamps on
    /// first sight and refreshing only `last_seen_at` on conflict.
    UpsertResource { id: ResourceId, first_seen_at: i64, last_seen_at: i64 },
    /// Merge the given attributes into the record keyed by `id`, overwriting
    /// per key and leaving absent keys untouched.
    MergeResourceAttributes { id: ResourceId, attributes: Vec<(Vec<u8>, Vec<u8>)> },
    /// Insert the containment edge `parent -> child`, refreshing only
    /// `last_seen_at` on conflict.
    UpsertContainsEdge { parent: ResourceId, child: ResourceId, first_seen_at: i64, last_seen_at: i64 },
    /// Insert the event edge keyed by `(principal, target, event_type)`,
    /// refreshing only `last_seen_at` on conflict.
    UpsertEventEdge {
        principal: ResourceId,
        target: ResourceId,
        event_type: Vec<u8>,
        first_seen_at: i64,
        last_seen_at: i64,
    },
    /// Create a report-key record; fails when a record with this id exists.
    CreateReportKey { key_id: u32, description: Option<Vec<u8>>, created_by: u128 },
}

/// Mathematical value of a statement.
pub enum StmtV {
    UpsertResource { id: RIdV, first_seen_at: i64, last_seen_at: i64 },
    MergeResourceAttributes { id: RIdV, attributes: Seq<(Seq<u8>, Seq<u8>)> },
    UpsertContainsEdge { parent: RIdV, child: RIdV, first_seen_at: i64, last_seen_at: i64 },
    UpsertEventEdge { principal: RIdV, target: RIdV, event_type: Seq<u8>, first_seen_at: i64, last_seen_at: i64 },
    CreateReportKey { key_id: u32, description: Option<Seq<u8>>, created_by: u128 },
}

pub open spec fn stmt_v(s: Statement) -> StmtV {
    match s {
        Statement::UpsertResource { id, first_seen_at, last_seen_at } => StmtV::UpsertResource {
            id: id@,
            first_seen_at,
            last_seen_at,
        },
        Statement::MergeResourceAttributes { id, attributes } => StmtV::MergeResourceAttributes {
            id: id@,
            attributes: attrs_v(attributes),
        },
        Statement::UpsertContainsEdge { parent, child, first_seen_at, last_seen_at } => StmtV::UpsertContainsEdge {
            parent: parent@,
            child: child@,
            first_seen_at,
            last_seen_at,
        },
        Statement::UpsertEventEdge { principal, target, event_type, first_seen_at, last_seen_at } => StmtV::UpsertEventEdge {
            principal: principal@,
            target: target@,
            event_type: event_type@,
            first_seen_at,
            last_seen_at,
        },
        Statement::CreateReportKey { key_id, description, created_by } => StmtV::CreateReportKey {
            key_id,
            description: match description {
                Option::Some(d) => Option::Some(d@),
                Option::None => Option::None,
            },
            created_by,
        },
    }
}

/// View of a statement list as the sequence of statement values.
pub open spec fn stmts_v(s: Seq<Statement>) -> Seq<StmtV> {
    s.map_values(|st: Statement| stmt_v(st))
}

} // verus!
