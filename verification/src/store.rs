use vstd::prelude::*;
use crate::assoc::{has_key, lemma_map_contains, lemma_map_index, lemma_map_push, lemma_map_update,
    pairs_to_map, unique_keys};
use crate::graph::{apply_stmt, apply_stmts, attrs_map, first_failure, stmt_fails, EdgeRec,
    GraphState, KeyRec, ResourceRec};
use crate::ids::{attrs_v, bytes_eq, copy_attrs, copy_bytes, copy_id, id_eq, RIdV, ResourceId};
use crate::statements::{stmt_v, stmts_v, Statement, StmtV};

verus! {

/// A stored resource record: the first/last-seen pair and the merged
/// attribute list, one entry per attribute key.
pub struct ResourceRecord {
    pub first_seen_at: i64,
    pub last_seen_at: i64,
    pub attributes: Vec<(Vec<u8>, Vec<u8>)>,
}

pub open spec fn res_rec_v(r: ResourceRecord) -> ResourceRec {
    ResourceRec {
        first_seen_at: r.first_seen_at,
        last_seen_at: r.last_seen_at,
        attrs: attrs_map(attrs_v(r.attributes)),
    }
}

/// A stored report-key record.
pub struct ReportKeyRecord {
    pub id: u32,
    pub description: Option<Vec<u8>>,
    pub created_by: u128,
    pub revoked_at: Option<i64>,
    pub revoked_by: Option<u128>,
}

pub open spec fn key_rec_v(r: ReportKeyRecord) -> KeyRec {
    KeyRec {
        description: match r.description {
            Option::Some(d) => Option::Some(d@),
            Option::None => Option::None,
        },
        created_by: r.created_by,
        revoked_at: r.revoked_at,
        revoked_by: r.revoked_by,
    }
}

pub open spec fn res_pairs(s: Seq<(ResourceId, ResourceRecord)>) -> Seq<(RIdV, ResourceRec)> {
    s.map_values(|e: (ResourceId, ResourceRecord)| (e.0@, res_rec_v(e.1)))
}

pub open spec fn cont_pairs(s: Seq<(ResourceId, ResourceId, i64, i64)>) -> Seq<
    ((RIdV, RIdV), EdgeRec),
> {
    s.map_values(
        |e: (ResourceId, ResourceId, i64, i64)|
            ((e.0@, e.1@), EdgeRec { first_seen_at: e.2, last_seen_at: e.3 }),
    )
}

pub open spec fn ev_pairs(s: Seq<(ResourceId, ResourceId, Vec<u8>, i64, i64)>) -> Seq<
    ((RIdV, RIdV, Seq<u8>), EdgeRec),
> {
    s.map_values(
        |e: (ResourceId, ResourceId, Vec<u8>, i64, i64)|
            ((e.0@, e.1@, e.2@), EdgeRec { first_seen_at: e.3, last_seen_at: e.4 }),
    )
}

pub open spec fn key_pairs(s: Seq<ReportKeyRecord>) -> Seq<(u32, KeyRec)> {
    s.map_values(|e: ReportKeyRecord| (e.id, key_rec_v(e)))
}

pub open spec fn opt_bytes_v(d: Option<Vec<u8>>) -> Option<Seq<u8>> {
    match d {
        Option::Some(d) => Option::Some(d@),
        Option::None => Option::None,
    }
}

fn find_attr(list: &Vec<(Vec<u8>, Vec<u8>)>, k: &Vec<u8>) -> (r: Option<usize>)
    ensures
        match r {
            Some(i) => i < list@.len() && attrs_v(*list)[i as int].0 == k@,
            None => !has_key(attrs_v(*list), k@),
        },
{
    let n = list.len();
    let mut i: usize = 0;
    while i < n
        invariant
            n == list@.len(),
            i <= n,
            forall|j: int| 0 <= j < i ==> attrs_v(*list)[j].0 != k@,
        decreases n - i,
    {
        if bytes_eq(&list[i].0, k) {
            return Some(i);
        }
        i += 1;
    }
    None
}

/// Merge `src` into `dst` per attribute key, later values overwriting
/// earlier ones, keeping one entry per key.
fn merge_attr_list(dst: &mut Vec<(Vec<u8>, Vec<u8>)>, src: &Vec<(Vec<u8>, Vec<u8>)>)
    requires
        unique_keys(attrs_v(*old(dst))),
    ensures
        unique_keys(attrs_v(*final(dst))),
        attrs_map(attrs_v(*final(dst))) == attrs_map(attrs_v(*old(dst))).union_prefer_right(
            attrs_map(attrs_v(*src)),
        ),
{
    let n = src.len();
    let mut j: usize = 0;
    while j < n
        invariant
            n == src@.len(),
            j <= n,
            unique_keys(attrs_v(*dst)),
            attrs_map(attrs_v(*dst)) == attrs_map(attrs_v(*old(dst))).union_prefer_right(
                attrs_map(attrs_v(*src).take(j as int)),
            ),
        decreases n - j,
    {
        let k = copy_bytes(&src[j].0);
        let v = copy_bytes(&src[j].1);
        let ghost pre = attrs_v(*dst);
        proof {
            assert(attrs_v(*src).take(j + 1).drop_last() =~= attrs_v(*src).take(j as int));
            assert(attrs_v(*src).take(j + 1).last() == (k@, v@));
        }
        match find_attr(dst, &k) {
            Some(i) => {
                dst[i] = (k, v);
                proof {
                    assert(attrs_v(*dst) =~= pre.update(i as int, (pre[i as int].0, v@)));
                    lemma_map_update(pre, i as int, v@);
                }
            },
            None => {
                dst.push((k, v));
                proof {
                    assert(attrs_v(*dst) =~= pre.push((k@, v@)));
                    lemma_map_push(pre, k@, v@);
                }
            },
        }
        proof {
            assert(attrs_map(attrs_v(*dst)) =~= attrs_map(attrs_v(*old(dst))).union_prefer_right(
                attrs_map(attrs_v(*src).take(j + 1)),
            ));
        }
        j += 1;
    }
    proof {
        assert(attrs_v(*src).take(n as int) =~= attrs_v(*src));
    }
}

/// An in-memory realization of the backing-store contract the engine
/// assumes: a transactional store with conflict-upsert semantics, atomic
/// multi-statement commit, full rollback on failure, and per-statement
/// result reporting where every statement other than the failing one reports
/// a generic not-executed status.
pub struct MemStore {
    pub resources: Vec<(ResourceId, ResourceRecord)>,
    pub contains: Vec<(ResourceId, ResourceId, i64, i64)>,
    pub events: Vec<(ResourceId, ResourceId, Vec<u8>, i64, i64)>,
    pub report_keys: Vec<ReportKeyRecord>,
}

impl View for MemStore {
    type V = GraphState;

    open spec fn view(&self) -> GraphState {
        GraphState {
            resources: pairs_to_map(res_pairs(self.resources@)),
            contains: pairs_to_map(cont_pairs(self.contains@)),
            events: pairs_to_map(ev_pairs(self.events@)),
            report_keys: pairs_to_map(key_pairs(self.report_keys@)),
        }
    }
}

/// The graph state with nothing in it.
pub open spec fn empty_graph() -> GraphState {
    GraphState {
        resources: Map::<RIdV, ResourceRec>::empty(),
        contains: Map::<(RIdV, RIdV), EdgeRec>::empty(),
        events: Map::<(RIdV, RIdV, Seq<u8>), EdgeRec>::empty(),
        report_keys: Map::<u32, KeyRec>::empty(),
    }
}

impl MemStore {
    /// Well-formedness: each collection keyed once per key, and each stored
    /// attribute list holding one entry per attribute key.
    pub open spec fn wf(&self) -> bool {
        &&& unique_keys(res_pairs(self.resources@))
        &&& unique_keys(cont_pairs(self.contains@))
        &&& unique_keys(ev_pairs(self.events@))
        &&& unique_keys(key_pairs(self.report_keys@))
        &&& forall|i: int|
            0 <= i < self.resources@.len() ==> unique_keys(
                attrs_v((#[trigger] self.resources@[i]).1.attributes),
            )
    }

    pub fn new() -> (s: Self)
        ensures
            s.wf(),
            s@ == empty_graph(),
    {
        let s = MemStore {
            resources: Vec::new(),
            contains: Vec::new(),
            events: Vec::new(),
            report_keys: Vec::new(),
        };
        proof {
            assert(res_pairs(s.resources@) =~= Seq::<(RIdV, ResourceRec)>::empty());
            assert(cont_pairs(s.contains@) =~= Seq::<((RIdV, RIdV), EdgeRec)>::empty());
            assert(ev_pairs(s.events@) =~= Seq::<((RIdV, RIdV, Seq<u8>), EdgeRec)>::empty());
            assert(key_pairs(s.report_keys@) =~= Seq::<(u32, KeyRec)>::empty());
        }
        s
    }

    fn find_res(&self, id: &ResourceId) -> (r: Option<usize>)
        ensures
            match r {
                Some(i) => i < self.resources@.len() && res_pairs(self.resources@)[i as int].0
                    == id@,
                None => !has_key(res_pairs(self.resources@), id@),
            },
    {
        let n = self.resources.len();
        let mut i: usize = 0;
        while i < n
            invariant
                n == self.resources@.len(),
                i <= n,
                forall|j: int| 0 <= j < i ==> res_pairs(self.resources@)[j].0 != id@,
            decreases n - i,
        {
            if id_eq(&self.resources[i].0, id) {
                return Some(i);
            }
            i += 1;
        }
        None
    }

    fn find_cont(&self, parent: &ResourceId, child: &ResourceId) -> (r: Option<usize>)
        ensures
            match r {
                Some(i) => i < self.contains@.len() && cont_pairs(self.contains@)[i as int].0 == (
                parent@,
                child@,
                ),
                None => !has_key(cont_pairs(self.contains@), (parent@, child@)),
            },
    {
        let n = self.contains.len();
        let mut i: usize = 0;
        while i < n
            invariant
                n == self.contains@.len(),
                i <= n,
                forall|j: int| 0 <= j < i ==> cont_pairs(self.contains@)[j].0 != (parent@, child@),
            decreases n - i,
        {
            if id_eq(&self.contains[i].0, parent) && id_eq(&self.contains[i].1, child) {
                return Some(i);
            }
            i += 1;
        }
        None
    }

    fn find_ev(&self, principal: &ResourceId, target: &ResourceId, event_type: &Vec<u8>) -> (r:
        Option<usize>)
        ensures
            match r {
                Some(i) => i < self.events@.len() && ev_pairs(self.events@)[i as int].0 == (
                principal@,
                target@,
                event_type@,
                ),
                None => !has_key(ev_pairs(self.events@), (principal@, target@, event_type@)),
            },
    {
        let n = self.events.len();
        let mut i: usize = 0;
        while i < n
            invariant
                n == self.events@.len(),
                i <= n,
                forall|j: int|
                    0 <= j < i ==> ev_pairs(self.events@)[j].0 != (
                    principal@,
                    target@,
                    event_type@,
                    ),
            decreases n - i,
        {
            if id_eq(&self.events[i].0, principal) && id_eq(&self.events[i].1, target) && bytes_eq(
                &self.events[i].2,
                event_type,
            ) {
                return Some(i);
            }
            i += 1;
        }
        None
    }

    /// Upsert the resource record: both timestamps on first sight, only
    /// `last_seen_at` on conflict; attributes untouched.
    fn apply_upsert_resource(&mut self, id: &ResourceId, first_seen_at: i64, last_seen_at: i64)
        requires
            old(self).wf(),
        ensures
            final(self).wf(),
            final(self)@ == apply_stmt(
                old(self)@,
                StmtV::UpsertResource { id: id@, first_seen_at, last_seen_at },
            ),
    {
        let ghost sv = StmtV::UpsertResource { id: id@, first_seen_at, last_seen_at };
        proof {
            lemma_map_contains(res_pairs(self.resources@), id@);
        }
        match self.find_res(id) {
            Some(i) => {
                proof {
                    lemma_map_index(res_pairs(self.resources@), i as int);
                }
                let key = copy_id(&self.resources[i].0);
                let newrec = ResourceRecord {
                    first_seen_at: self.resources[i].1.first_seen_at,
                    last_seen_at,
                    attributes: copy_attrs(&self.resources[i].1.attributes),
                };
                let ghost nv = res_rec_v(newrec);
                let ghost oldpairs = res_pairs(self.resources@);
                proof {
                    assert(key@ == self.resources@[i as int].0@);
                    assert(oldpairs[i as int].0 == id@);
                }
                self.resources[i] = (key, newrec);
                proof {
                    assert(res_pairs(self.resources@) =~= oldpairs.update(i as int, (id@, nv)));
                    lemma_map_update(oldpairs, i as int, nv);
                    assert(self@.resources =~= apply_stmt(old(self)@, sv).resources);
                    assert(self@ == apply_stmt(old(self)@, sv));
                    assert forall|j: int|
                        0 <= j < self.resources@.len() implies unique_keys(
                        attrs_v((#[trigger] self.resources@[j]).1.attributes),
                    ) by {
                        if j != i as int {
                            assert(self.resources@[j] == old(self).resources@[j]);
                        }
                    }
                }
            },
            None => {
                let key = copy_id(id);
                self.resources.push(
                    (key, ResourceRecord { first_seen_at, last_seen_at, attributes: Vec::new() }),
                );
                proof {
                    let ghost oldpairs = res_pairs(old(self).resources@);
                    let ghost nv = ResourceRec {
                        first_seen_at,
                        last_seen_at,
                        attrs: Map::<Seq<u8>, Seq<u8>>::empty(),
                    };
                    assert(attrs_map(attrs_v(self.resources@.last().1.attributes))
                        =~= Map::<Seq<u8>, Seq<u8>>::empty());
                    assert(res_pairs(self.resources@) =~= oldpairs.push((id@, nv)));
                    lemma_map_push(oldpairs, id@, nv);
                    assert(self@.resources =~= apply_stmt(old(self)@, sv).resources);
                    assert(self@ == apply_stmt(old(self)@, sv));
                    assert forall|j: int|
                        0 <= j < self.resources@.len() implies unique_keys(
                        attrs_v((#[trigger] self.resources@[j]).1.attributes),
                    ) by {
                        if j < self.resources@.len() - 1 {
                            assert(self.resources@[j] == old(self).resources@[j]);
                        } else {
                            assert(attrs_v(self.resources@[j].1.attributes) =~= Seq::<
                                (Seq<u8>, Seq<u8>),
                            >::empty());
                        }
                    }
                }
            },
        }
    }

    /// Merge the given attributes into the record keyed by `id`, per key;
    /// nothing happens when the record is absent (the compilers only emit a
    /// merge after the record's upsert).
    fn apply_merge_attributes(&mut self, id: &ResourceId, attributes: &Vec<(Vec<u8>, Vec<u8>)>)
        requires
            old(self).wf(),
        ensures
            final(self).wf(),
            final(self)@ == apply_stmt(
                old(self)@,
                StmtV::MergeResourceAttributes { id: id@, attributes: attrs_v(*attributes) },
            ),
    {
        let ghost sv = StmtV::MergeResourceAttributes { id: id@, attributes: attrs_v(*attributes) };
        proof {
            lemma_map_contains(res_pairs(self.resources@), id@);
        }
        match self.find_res(id) {
            Some(i) => {
                proof {
                    lemma_map_index(res_pairs(self.resources@), i as int);
                }
                let key = copy_id(&self.resources[i].0);
                let first_seen_at = self.resources[i].1.first_seen_at;
                let last_seen_at = self.resources[i].1.last_seen_at;
                let mut merged = copy_attrs(&self.resources[i].1.attributes);
                merge_attr_list(&mut merged, attributes);
                let newrec = ResourceRecord { first_seen_at, last_seen_at, attributes: merged };
                let ghost nv = res_rec_v(newrec);
                let ghost oldpairs = res_pairs(self.resources@);
                self.resources[i] = (key, newrec);
                proof {
                    assert(res_pairs(self.resources@) =~= oldpairs.update(i as int, (id@, nv)));
                    lemma_map_update(oldpairs, i as int, nv);
                    assert(self@.resources =~= apply_stmt(old(self)@, sv).resources);
                    assert(self@ == apply_stmt(old(self)@, sv));
                    assert forall|j: int|
                        0 <= j < self.resources@.len() implies unique_keys(
                        attrs_v((#[trigger] self.resources@[j]).1.attributes),
                    ) by {
                        if j != i as int {
                            assert(self.resources@[j] == old(self).resources@[j]);
                        }
                    }
                }
            },
            None => {
                proof {
                    assert(self@ == apply_stmt(old(self)@, sv));
                }
            },
        }
    }

    /// Upsert the containment edge, refreshing only `last_seen_at` on
    /// conflict.
    fn apply_upsert_contains(
        &mut self,
        parent: &ResourceId,
        child: &ResourceId,
        first_seen_at: i64,
        last_seen_at: i64,
    )
        requires
            old(self).wf(),
        ensures
            final(self).wf(),
            final(self)@ == apply_stmt(
                old(self)@,
                StmtV::UpsertContainsEdge { parent: parent@, child: child@, first_seen_at, last_seen_at },
            ),
    {
        let ghost sv = StmtV::UpsertContainsEdge {
            parent: parent@,
            child: child@,
            first_seen_at,
            last_seen_at,
        };
        proof {
            lemma_map_contains(cont_pairs(self.contains@), (parent@, child@));
        }
        match self.find_cont(parent, child) {
            Some(i) => {
                proof {
                    lemma_map_index(cont_pairs(self.contains@), i as int);
                }
                let p = copy_id(&self.contains[i].0);
                let c = copy_id(&self.contains[i].1);
                let f0 = self.contains[i].2;
                let ghost oldpairs = cont_pairs(self.contains@);
                self.contains[i] = (p, c, f0, last_seen_at);
                proof {
                    let ghost nv = EdgeRec { first_seen_at: f0, last_seen_at };
                    assert(cont_pairs(self.contains@) =~= oldpairs.update(
                        i as int,
                        ((parent@, child@), nv),
                    ));
                    lemma_map_update(oldpairs, i as int, nv);
                    assert(self@.contains =~= apply_stmt(old(self)@, sv).contains);
                    assert(self@ == apply_stmt(old(self)@, sv));
                }
            },
            None => {
                let p = copy_id(parent);
                let c = copy_id(child);
                self.contains.push((p, c, first_seen_at, last_seen_at));
                proof {
                    let ghost nv = EdgeRec { first_seen_at, last_seen_at };
                    let ghost oldpairs = cont_pairs(old(self).contains@);
                    assert(cont_pairs(self.contains@) =~= oldpairs.push(((parent@, child@), nv)));
                    lemma_map_push(oldpairs, (parent@, child@), nv);
                    assert(self@.contains =~= apply_stmt(old(self)@, sv).contains);
                    assert(self@ == apply_stmt(old(self)@, sv));
                }
            },
        }
    }

    /// Upsert the event edge keyed by `(principal, target, event_type)`,
    /// refreshing only `last_seen_at` on conflict.
    fn apply_upsert_event(
        &mut self,
        principal: &ResourceId,
        target: &ResourceId,
        event_type: &Vec<u8>,
        first_seen_at: i64,
        last_seen_at: i64,
    )
        requires
            old(self).wf(),
        ensures
            final(self).wf(),
            final(self)@ == apply_stmt(
                old(self)@,
                StmtV::UpsertEventEdge {
                    principal: principal@,
                    target: target@,
                    event_type: event_type@,
                    first_seen_at,
                    last_seen_at,
                },
            ),
    {
        let ghost sv = StmtV::UpsertEventEdge {
            principal: principal@,
            target: target@,
            event_type: event_type@,
            first_seen_at,
            last_seen_at,
        };
        proof {
            lemma_map_contains(ev_pairs(self.events@), (principal@, target@, event_type@));
        }
        match self.find_ev(principal, target, event_type) {
            Some(i) => {
                proof {
                    lemma_map_index(ev_pairs(self.events@), i as int);
                }
                let p = copy_id(&self.events[i].0);
                let t = copy_id(&self.events[i].1);
                let ty = copy_bytes(&self.events[i].2);
                let f0 = self.events[i].3;
                let ghost oldpairs = ev_pairs(self.events@);
                self.events[i] = (p, t, ty, f0, last_seen_at);
                proof {
                    let ghost nv = EdgeRec { first_seen_at: f0, last_seen_at };
                    assert(ev_pairs(self.events@) =~= oldpairs.update(
                        i as int,
                        ((principal@, target@, event_type@), nv),
                    ));
                    lemma_map_update(oldpairs, i as int, nv);
                    assert(self@.events =~= apply_stmt(old(self)@, sv).events);
                    assert(self@ == apply_stmt(old(self)@, sv));
                }
            },
            None => {
                let p = copy_id(principal);
                let t = copy_id(target);
                let ty = copy_bytes(event_type);
                self.events.push((p, t, ty, first_seen_at, last_seen_at));
                proof {
                    let ghost nv = EdgeRec { first_seen_at, last_seen_at };
                    let ghost oldpairs = ev_pairs(old(self).events@);
                    assert(ev_pairs(self.events@) =~= oldpairs.push(
                        ((principal@, target@, event_type@), nv),
                    ));
                    lemma_map_push(oldpairs, (principal@, target@, event_type@), nv);
                    assert(self@.events =~= apply_stmt(old(self)@, sv).events);
                    assert(self@ == apply_stmt(old(self)@, sv));
                }
            },
        }
    }

    /// Create a report-key record; reports the conflict when the id exists.
    fn apply_create_report_key(
        &mut self,
        key_id: u32,
        description: &Option<Vec<u8>>,
        created_by: u128,
    ) -> (ok: bool)
        requires
            old(self).wf(),
        ensures
            final(self).wf(),
            ok == !stmt_fails(
                old(self)@,
                StmtV::CreateReportKey {
                    key_id,
                    description: opt_bytes_v(*description),
                    created_by,
                },
            ),
            final(self)@ == apply_stmt(
                old(self)@,
                StmtV::CreateReportKey {
                    key_id,
                    description: opt_bytes_v(*description),
                    created_by,
                },
            ),
            !ok ==> *final(self) == *old(self),
    {
        let ghost sv = StmtV::CreateReportKey {
            key_id,
            description: opt_bytes_v(*description),
            created_by,
        };
        proof {
            lemma_map_contains(key_pairs(self.report_keys@), key_id);
        }
        match self.find_key(key_id) {
            Some(_) => {
                proof {
                    assert(self@ == apply_stmt(old(self)@, sv));
                }
                false
            },
            None => {
                let d = match description {
                    Some(d) => Some(copy_bytes(d)),
                    None => None,
                };
                let rec = ReportKeyRecord {
                    id: key_id,
                    description: d,
                    created_by,
                    revoked_at: None,
                    revoked_by: None,
                };
                let ghost nv = key_rec_v(rec);
                self.report_keys.push(rec);
                proof {
                    let ghost oldpairs = key_pairs(old(self).report_keys@);
                    assert(key_pairs(self.report_keys@) =~= oldpairs.push((key_id, nv)));
                    lemma_map_push(oldpairs, key_id, nv);
                    assert(self@.report_keys =~= apply_stmt(old(self)@, sv).report_keys);
                    assert(self@ == apply_stmt(old(self)@, sv));
                }
                true
            },
        }
    }

    /// Execute one statement; `false` reports the failing create.
    fn apply_statement(&mut self, s: &Statement) -> (ok: bool)
        requires
            old(self).wf(),
        ensures
            final(self).wf(),
            ok == !stmt_fails(old(self)@, stmt_v(*s)),
            final(self)@ == apply_stmt(old(self)@, stmt_v(*s)),
            !ok ==> *final(self) == *old(self),
    {
        match s {
            Statement::UpsertResource { id, first_seen_at, last_seen_at } => {
                self.apply_upsert_resource(id, *first_seen_at, *last_seen_at);
                true
            },
            Statement::MergeResourceAttributes { id, attributes } => {
                self.apply_merge_attributes(id, attributes);
                true
            },
            Statement::UpsertContainsEdge { parent, child, first_seen_at, last_seen_at } => {
                self.apply_upsert_contains(parent, child, *first_seen_at, *last_seen_at);
                true
            },
            Statement::UpsertEventEdge {
                principal,
                target,
                event_type,
                first_seen_at,
                last_seen_at,
            } => {
                self.apply_upsert_event(principal, target, event_type, *first_seen_at, *last_seen_at);
                true
            },
            Statement::CreateReportKey { key_id, description, created_by } => {
                self.apply_create_report_key(*key_id, description, *created_by)
            },
        }
    }

    fn find_key(&self, id: u32) -> (r: Option<usize>)
        ensures
            match r {
                Some(i) => i < self.report_keys@.len() && key_pairs(self.report_keys@)[i as int].0
                    == id,
                None => !has_key(key_pairs(self.report_keys@), id),
            },
    {
        let n = self.report_keys.len();
        let mut i: usize = 0;
        while i < n
            invariant
                n == self.report_keys@.len(),
                i <= n,
                forall|j: int| 0 <= j < i ==> key_pairs(self.report_keys@)[j].0 != id,
            decreases n - i,
        {
            if self.report_keys[i].id == id {
                return Some(i);
            }
            i += 1;
        }
        None
    }
}

/// The error a failing statement reports.
#[derive(Clone, Copy, Debug, PartialEq, Eq, Structural)]
pub enum StoreError {
    /// A create hit an existing report-key id.
    ReportKeyAlreadyExists(u32),
}

/// What the store reports for one statement of a transaction. After a
/// failure, every other statement of the same transaction reports the
/// generic not-executed status rather than its own outcome.
#[derive(Clone, Copy, Debug, PartialEq, Eq, Structural)]
pub enum StatementOutcome {
    Succeeded,
    NotExecuted,
    Failed(StoreError),
}

impl MemStore {
    /// A deep copy with the same graph state.
    pub fn copy_store(&self) -> (r: Self)
        ensures
            res_pairs(r.resources@) == res_pairs(self.resources@),
            cont_pairs(r.contains@) == cont_pairs(self.contains@),
            ev_pairs(r.events@) == ev_pairs(self.events@),
            key_pairs(r.report_keys@) == key_pairs(self.report_keys@),
            r@ == self@,
            self.wf() ==> r.wf(),
    {
        let mut resources: Vec<(ResourceId, ResourceRecord)> = Vec::new();
        let n1 = self.resources.len();
        let mut i: usize = 0;
        while i < n1
            invariant
                n1 == self.resources@.len(),
                i <= n1,
                resources@.len() == i,
                forall|j: int|
                    0 <= j < i ==> res_pairs(resources@)[j] == res_pairs(self.resources@)[j],
                forall|j: int|
                    0 <= j < i ==> attrs_v((#[trigger] resources@[j]).1.attributes) == attrs_v(
                        self.resources@[j].1.attributes,
                    ),
            decreases n1 - i,
        {
            let ghost pre = resources@;
            let e = (
                copy_id(&self.resources[i].0),
                ResourceRecord {
                    first_seen_at: self.resources[i].1.first_seen_at,
                    last_seen_at: self.resources[i].1.last_seen_at,
                    attributes: copy_attrs(&self.resources[i].1.attributes),
                },
            );
            let ghost ev = (e.0@, res_rec_v(e.1));
            let ghost eav = attrs_v(e.1.attributes);
            resources.push(e);
            proof {
                assert(ev == res_pairs(self.resources@)[i as int]);
                assert forall|j: int| 0 <= j < i + 1 implies res_pairs(resources@)[j] == res_pairs(
                    self.resources@,
                )[j] by {
                    if j < i {
                        assert(resources@[j] == pre[j]);
                        assert(res_pairs(resources@)[j] == (resources@[j].0@, res_rec_v(
                            resources@[j].1,
                        )));
                        assert(res_pairs(pre)[j] == (pre[j].0@, res_rec_v(pre[j].1)));
                        assert(res_pairs(pre)[j] == res_pairs(self.resources@)[j]);
                    } else {
                        assert(resources@[j] == e);
                        assert(res_pairs(resources@)[j] == (resources@[j].0@, res_rec_v(
                            resources@[j].1,
                        )));
                        assert(res_pairs(resources@)[j] == ev);
                    }
                }
                assert forall|j: int| 0 <= j < i + 1 implies attrs_v(
                    (#[trigger] resources@[j]).1.attributes,
                ) == attrs_v(self.resources@[j].1.attributes) by {
                    if j < i {
                        assert(resources@[j] == pre[j]);
                    } else {
                        assert(resources@[j] == e);
                        assert(attrs_v(e.1.attributes) == eav);
                    }
                }
            }
            i += 1;
        }
        proof {
            assert(res_pairs(resources@) =~= res_pairs(self.resources@));
        }

        let mut contains: Vec<(ResourceId, ResourceId, i64, i64)> = Vec::new();
        let n2 = self.contains.len();
        let mut i2: usize = 0;
        while i2 < n2
            invariant
                n2 == self.contains@.len(),
                i2 <= n2,
                contains@.len() == i2,
                forall|j: int|
                    0 <= j < i2 ==> cont_pairs(contains@)[j] == cont_pairs(self.contains@)[j],
            decreases n2 - i2,
        {
            let ghost pre = contains@;
            let e = (
                copy_id(&self.contains[i2].0),
                copy_id(&self.contains[i2].1),
                self.contains[i2].2,
                self.contains[i2].3,
            );
            let ghost ev = ((e.0@, e.1@), EdgeRec { first_seen_at: e.2, last_seen_at: e.3 });
            contains.push(e);
            proof {
                assert(ev == cont_pairs(self.contains@)[i2 as int]);
                assert forall|j: int| 0 <= j < i2 + 1 implies cont_pairs(contains@)[j] == cont_pairs(
                    self.contains@,
                )[j] by {
                    assert(cont_pairs(contains@)[j] == ((contains@[j].0@, contains@[j].1@), EdgeRec {
                        first_seen_at: contains@[j].2,
                        last_seen_at: contains@[j].3,
                    }));
                    if j < i2 {
                        assert(contains@[j] == pre[j]);
                        assert(cont_pairs(pre)[j] == ((pre[j].0@, pre[j].1@), EdgeRec {
                            first_seen_at: pre[j].2,
                            last_seen_at: pre[j].3,
                        }));
                        assert(cont_pairs(pre)[j] == cont_pairs(self.contains@)[j]);
                    } else {
                        assert(contains@[j] == e);
                        assert(cont_pairs(contains@)[j] == ev);
                    }
                }
            }
            i2 += 1;
        }
        proof {
            assert(cont_pairs(contains@) =~= cont_pairs(self.contains@));
        }

        let mut events: Vec<(ResourceId, ResourceId, Vec<u8>, i64, i64)> = Vec::new();
        let n3 = self.events.len();
        let mut i3: usize = 0;
        while i3 < n3
            invariant
                n3 == self.events@.len(),
                i3 <= n3,
                events@.len() == i3,
                forall|j: int| 0 <= j < i3 ==> ev_pairs(events@)[j] == ev_pairs(self.events@)[j],
            decreases n3 - i3,
        {
            let ghost pre = events@;
            let e = (
                copy_id(&self.events[i3].0),
                copy_id(&self.events[i3].1),
                copy_bytes(&self.events[i3].2),
                self.events[i3].3,
                self.events[i3].4,
            );
            let ghost ev = ((e.0@, e.1@, e.2@), EdgeRec { first_seen_at: e.3, last_seen_at: e.4 });
            events.push(e);
            proof {
                assert(ev == ev_pairs(self.events@)[i3 as int]);
                assert forall|j: int| 0 <= j < i3 + 1 implies ev_pairs(events@)[j] == ev_pairs(
                    self.events@,
                )[j] by {
                    assert(ev_pairs(events@)[j] == ((events@[j].0@, events@[j].1@, events@[j].2@),
                    EdgeRec { first_seen_at: events@[j].3, last_seen_at: events@[j].4 }));
                    if j < i3 {
                        assert(events@[j] == pre[j]);
                        assert(ev_pairs(pre)[j] == ((pre[j].0@, pre[j].1@, pre[j].2@), EdgeRec {
                            first_seen_at: pre[j].3,
                            last_seen_at: pre[j].4,
                        }));
                        assert(ev_pairs(pre)[j] == ev_pairs(self.events@)[j]);
                    } else {
                        assert(events@[j] == e);
                        assert(ev_pairs(events@)[j] == ev);
                    }
                }
            }
            i3 += 1;
        }
        proof {
            assert(ev_pairs(events@) =~= ev_pairs(self.events@));
        }

        let mut report_keys: Vec<ReportKeyRecord> = Vec::new();
        let n4 = self.report_keys.len();
        let mut i4: usize = 0;
        while i4 < n4
            invariant
                n4 == self.report_keys@.len(),
                i4 <= n4,
                report_keys@.len() == i4,
                forall|j: int|
                    0 <= j < i4 ==> key_pairs(report_keys@)[j] == key_pairs(self.report_keys@)[j],
            decreases n4 - i4,
        {
            let d = match &self.report_keys[i4].description {
                Some(d) => Some(copy_bytes(d)),
                None => None,
            };
            let ghost pre = report_keys@;
            let e = ReportKeyRecord {
                id: self.report_keys[i4].id,
                description: d,
                created_by: self.report_keys[i4].created_by,
                revoked_at: self.report_keys[i4].revoked_at,
                revoked_by: self.report_keys[i4].revoked_by,
            };
            let ghost ev = (e.id, key_rec_v(e));
            report_keys.push(e);
            proof {
                assert(ev == key_pairs(self.report_keys@)[i4 as int]);
                assert forall|j: int| 0 <= j < i4 + 1 implies key_pairs(report_keys@)[j] == key_pairs(
                    self.report_keys@,
                )[j] by {
                    assert(key_pairs(report_keys@)[j] == (report_keys@[j].id, key_rec_v(
                        report_keys@[j],
                    )));
                    if j < i4 {
                        assert(report_keys@[j] == pre[j]);
                        assert(key_pairs(pre)[j] == (pre[j].id, key_rec_v(pre[j])));
                        assert(key_pairs(pre)[j] == key_pairs(self.report_keys@)[j]);
                    } else {
                        assert(report_keys@[j] == e);
                        assert(key_pairs(report_keys@)[j] == ev);
                    }
                }
            }
            i4 += 1;
        }
        proof {
            assert(key_pairs(report_keys@) =~= key_pairs(self.report_keys@));
        }

        let r = MemStore { resources, contains, events, report_keys };
        proof {
            if self.wf() {
                assert forall|j: int|
                    0 <= j < r.resources@.len() implies unique_keys(
                    attrs_v((#[trigger] r.resources@[j]).1.attributes),
                ) by {
                    assert(attrs_v((#[trigger] r.resources@[j]).1.attributes) == attrs_v(
                        self.resources@[j].1.attributes,
                    ));
                }
            }
        }
        r
    }

    /// Execute the statement list as one atomic transaction: on success the
    /// state advances through every statement in order; on the first failure
    /// the state is fully rolled back, the failing statement reports its own
    /// error, and every other statement reports the generic not-executed
    /// status.
    pub fn execute_transaction(&mut self, stmts: &Vec<Statement>) -> (outcomes: Vec<
        StatementOutcome,
    >)
        requires
            old(self).wf(),
        ensures
            final(self).wf(),
            outcomes@.len() == stmts@.len(),
            match first_failure(old(self)@, stmts_v(stmts@), 0) {
                None => final(self)@ == apply_stmts(old(self)@, stmts_v(stmts@), 0) && forall|j: int|
                    0 <= j < outcomes@.len() ==> outcomes@[j] is Succeeded,
                Some(fk) => *final(self) == *old(self) && 0 <= fk.0 < stmts@.len() && outcomes@[fk.0]
                    == StatementOutcome::Failed(StoreError::ReportKeyAlreadyExists(fk.1)) && forall|
                    j: int,
                |
                    0 <= j < outcomes@.len() && j != fk.0 ==> outcomes@[j] is NotExecuted,
            },
    {
        let ghost sv = stmts_v(stmts@);
        let mut work = self.copy_store();
        let n = stmts.len();
        let mut i: usize = 0;
        let mut failure: Option<(usize, u32)> = None;
        while i < n
            invariant
                n == stmts@.len(),
                i <= n,
                work.wf(),
                sv == stmts_v(stmts@),
                match failure {
                    None => apply_stmts(work@, sv, i as int) == apply_stmts(old(self)@, sv, 0)
                        && first_failure(work@, sv, i as int) == first_failure(old(self)@, sv, 0),
                    Some(fk) => first_failure(old(self)@, sv, 0) == Some((fk.0 as int, fk.1))
                        && fk.0 < n,
                },
                *self == *old(self),
            decreases n - i,
        {
            if failure.is_none() {
                let ghost pre = work@;
                let ok = work.apply_statement(&stmts[i]);
                if !ok {
                    let kid = match &stmts[i] {
                        Statement::CreateReportKey { key_id, .. } => *key_id,
                        _ => 0,
                    };
                    proof {
                        assert(sv[i as int] == stmt_v(stmts@[i as int]));
                        assert(stmt_fails(pre, sv[i as int]));
                        assert(sv[i as int] is CreateReportKey);
                        assert(first_failure(pre, sv, i as int) == Some((i as int, kid)));
                    }
                    failure = Some((i, kid));
                } else {
                    proof {
                        assert(first_failure(pre, sv, i as int) == first_failure(
                            work@,
                            sv,
                            i + 1,
                        ));
                        assert(apply_stmts(pre, sv, i as int) == apply_stmts(work@, sv, i + 1));
                    }
                }
            }
            i += 1;
        }
        match failure {
            None => {
                proof {
                    assert(first_failure(work@, sv, n as int) is None);
                    assert(apply_stmts(work@, sv, n as int) == work@);
                }
                *self = work;
                let mut outcomes: Vec<StatementOutcome> = Vec::new();
                let mut j: usize = 0;
                while j < n
                    invariant
                        j <= n,
                        outcomes@.len() == j,
                        forall|t: int| 0 <= t < j ==> outcomes@[t] is Succeeded,
                    decreases n - j,
                {
                    outcomes.push(StatementOutcome::Succeeded);
                    j += 1;
                }
                outcomes
            },
            Some((f, kid)) => {
                let mut outcomes: Vec<StatementOutcome> = Vec::new();
                let mut j: usize = 0;
                while j < n
                    invariant
                        j <= n,
                        f < n,
                        outcomes@.len() == j,
                        forall|t: int| 0 <= t < j && t != f ==> outcomes@[t] is NotExecuted,
                        f < j ==> outcomes@[f as int] == StatementOutcome::Failed(
                            StoreError::ReportKeyAlreadyExists(kid),
                        ),
                    decreases n - j,
                {
                    if j == f {
                        outcomes.push(
                            StatementOutcome::Failed(StoreError::ReportKeyAlreadyExists(kid)),
                        );
                    } else {
                        outcomes.push(StatementOutcome::NotExecuted);
                    }
                    j += 1;
                }
                outcomes
            },
        }
    }
}

} // verus!
