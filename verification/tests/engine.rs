use archodex_engine::executor::{check_first_real_error, ingest, ExecError};
use archodex_engine::ids::{ResourceId, ResourceIdSegment};
use archodex_engine::query::{run_query, QueryType};
use archodex_engine::report::{Event, EventCapture, ReportRequest, ResourceTreeNode};
use archodex_engine::report_key::ReportKey;
use archodex_engine::report_keys::create_report_key;
use archodex_engine::statements::Statement;
use archodex_engine::store::{MemStore, StatementOutcome, StoreError};
use archodex_engine::{dynamodb_resources_table_name_for_account, next_binding};

fn seg(t: &str, i: &str) -> ResourceIdSegment {
    ResourceIdSegment {
        rtype: t.as_bytes().to_vec(),
        id: i.as_bytes().to_vec(),
    }
}

fn rid(parts: &[(&str, &str)]) -> ResourceId {
    ResourceId {
        segments: parts.iter().map(|(t, i)| seg(t, i)).collect(),
    }
}

fn leaf(t: &str, i: &str, first: i64, last: i64) -> ResourceTreeNode {
    ResourceTreeNode {
        segment: seg(t, i),
        globally_unique: false,
        first_seen_at: first,
        last_seen_at: last,
        attributes: Vec::new(),
        contains: Vec::new(),
    }
}

#[test]
fn path_identity_compiles_full_paths() {
    let mut child = leaf("Container", "c1", 10, 20);
    child.attributes = vec![(b"k".to_vec(), b"v".to_vec())];
    let mut root = leaf("Host", "h1", 1, 2);
    root.contains = vec![child];
    let req = ReportRequest {
        resource_captures: vec![root],
        event_captures: vec![],
    };
    let stmts = archodex_engine::report::compile_report(&req);
    assert_eq!(stmts.len(), 4);
    assert_eq!(
        stmts[0],
        Statement::UpsertResource {
            id: rid(&[("Host", "h1")]),
            first_seen_at: 1,
            last_seen_at: 2,
        }
    );
    assert_eq!(
        stmts[1],
        Statement::UpsertResource {
            id: rid(&[("Host", "h1"), ("Container", "c1")]),
            first_seen_at: 10,
            last_seen_at: 20,
        }
    );
    assert_eq!(
        stmts[2],
        Statement::MergeResourceAttributes {
            id: rid(&[("Host", "h1"), ("Container", "c1")]),
            attributes: vec![(b"k".to_vec(), b"v".to_vec())],
        }
    );
    assert_eq!(
        stmts[3],
        Statement::UpsertContainsEdge {
            parent: rid(&[("Host", "h1")]),
            child: rid(&[("Host", "h1"), ("Container", "c1")]),
            first_seen_at: 10,
            last_seen_at: 20,
        }
    );
}

#[test]
fn globally_unique_restarts_identity_but_keeps_structural_parent() {
    // A (not unique) -> B (globally unique) -> C
    let c = leaf("Key", "C", 5, 6);
    let mut b = leaf("Service", "B", 3, 4);
    b.globally_unique = true;
    b.contains = vec![c];
    let mut a = leaf("Host", "A", 1, 2);
    a.contains = vec![b];
    let req = ReportRequest {
        resource_captures: vec![a],
        event_captures: vec![],
    };
    let stmts = archodex_engine::report::compile_report(&req);
    let ids: Vec<&ResourceId> = stmts
        .iter()
        .filter_map(|s| match s {
            Statement::UpsertResource { id, .. } => Some(id),
            _ => None,
        })
        .collect();
    assert_eq!(ids.len(), 3);
    assert_eq!(*ids[0], rid(&[("Host", "A")]));
    assert_eq!(*ids[1], rid(&[("Service", "B")]));
    assert_eq!(*ids[2], rid(&[("Service", "B"), ("Key", "C")]));
    // The containment edge into B references the structural parent A.
    let edges: Vec<(&ResourceId, &ResourceId)> = stmts
        .iter()
        .filter_map(|s| match s {
            Statement::UpsertContainsEdge { parent, child, .. } => Some((parent, child)),
            _ => None,
        })
        .collect();
    assert_eq!(edges.len(), 2);
    assert_eq!(*edges[0].0, rid(&[("Service", "B")]));
    assert_eq!(*edges[0].1, rid(&[("Service", "B"), ("Key", "C")]));
    assert_eq!(*edges[1].0, rid(&[("Host", "A")]));
    assert_eq!(*edges[1].1, rid(&[("Service", "B")]));
}

#[test]
fn end_to_end_globally_unique_tree_query_all() {
    let c = leaf("Key", "C", 5, 6);
    let mut b = leaf("Service", "B", 3, 4);
    b.globally_unique = true;
    b.contains = vec![c];
    let mut a = leaf("Host", "A", 1, 2);
    a.contains = vec![b];
    let req = ReportRequest {
        resource_captures: vec![a],
        event_captures: vec![],
    };
    let mut store = MemStore::new();
    ingest(&mut store, &req).unwrap();

    let q = run_query(&store, &QueryType::All);
    let got: Vec<&ResourceId> = q.resources.iter().map(|r| &r.id).collect();
    assert_eq!(got.len(), 3);
    assert_eq!(*got[0], rid(&[("Host", "A")]));
    assert_eq!(*got[1], rid(&[("Service", "B")]));
    assert_eq!(*got[2], rid(&[("Service", "B"), ("Key", "C")]));
    assert!(q.events.is_none());
    // Global containers: B contains C, A contains B.
    assert_eq!(q.global_containers.len(), 2);
    assert!(q.global_containers.contains(&rid(&[("Service", "B")])));
    assert!(q.global_containers.contains(&rid(&[("Host", "A")])));
}

fn sample_request() -> ReportRequest {
    let mut child = leaf("Container", "c1", 10, 20);
    child.attributes = vec![(b"image".to_vec(), b"\"nginx\"".to_vec())];
    let mut root = leaf("Host", "h1", 1, 2);
    root.contains = vec![child];
    let capture = EventCapture {
        principals: vec![rid(&[("Host", "h1")])],
        resources: vec![rid(&[("Host", "h1"), ("Container", "c1")])],
        events: vec![Event {
            event_type: b"starts".to_vec(),
            first_seen_at: 30,
            last_seen_at: 40,
        }],
    };
    ReportRequest {
        resource_captures: vec![root],
        event_captures: vec![capture],
    }
}

#[test]
fn ingestion_is_idempotent() {
    let mut store = MemStore::new();
    ingest(&mut store, &sample_request()).unwrap();
    let once = run_query(&store, &QueryType::All);
    let contains_once = store.contains.len();
    let events_once = store.events.len();

    ingest(&mut store, &sample_request()).unwrap();
    let twice = run_query(&store, &QueryType::All);

    assert_eq!(once, twice);
    assert_eq!(store.contains.len(), contains_once);
    assert_eq!(store.events.len(), events_once);
}

#[test]
fn repeated_ingestion_advances_only_last_seen() {
    let mut store = MemStore::new();
    ingest(&mut store, &sample_request()).unwrap();
    let mut later = sample_request();
    later.resource_captures[0].first_seen_at = 100;
    later.resource_captures[0].last_seen_at = 200;
    ingest(&mut store, &later).unwrap();
    let q = run_query(&store, &QueryType::All);
    let host = q
        .resources
        .iter()
        .find(|r| r.id == rid(&[("Host", "h1")]))
        .unwrap();
    assert_eq!(host.first_seen_at, 1);
    assert_eq!(host.last_seen_at, 200);
}

#[test]
fn cross_product_emits_every_triple() {
    let capture = EventCapture {
        principals: vec![rid(&[("User", "u1")]), rid(&[("User", "u2")])],
        resources: vec![rid(&[("Db", "d1")]), rid(&[("Db", "d2")])],
        events: vec![
            Event {
                event_type: b"reads".to_vec(),
                first_seen_at: 1,
                last_seen_at: 2,
            },
            Event {
                event_type: b"writes".to_vec(),
                first_seen_at: 3,
                last_seen_at: 4,
            },
        ],
    };
    let req = ReportRequest {
        resource_captures: vec![],
        event_captures: vec![capture],
    };
    let stmts = archodex_engine::report::compile_report(&req);
    assert_eq!(stmts.len(), 2 * 2 * 2);
    let principals = ["u1", "u2"];
    let resources = ["d1", "d2"];
    let types: [&[u8]; 2] = [b"reads", b"writes"];
    for i in 0..2 {
        for j in 0..2 {
            for k in 0..2 {
                let idx = i * 4 + j * 2 + k;
                match &stmts[idx] {
                    Statement::UpsertEventEdge {
                        principal,
                        target,
                        event_type,
                        ..
                    } => {
                        assert_eq!(*principal, rid(&[("User", principals[i])]));
                        assert_eq!(*target, rid(&[("Db", resources[j])]));
                        assert_eq!(event_type.as_slice(), types[k]);
                    }
                    other => panic!("expected an event upsert, got {other:?}"),
                }
            }
        }
    }
}

#[test]
fn secrets_query_filters_resources_and_events() {
    let mut store = MemStore::new();
    let mut secret = leaf("Secret", "s1", 1, 2);
    secret.globally_unique = false;
    let vault = {
        let mut v = leaf("Vault", "v1", 1, 2);
        v.contains = vec![secret, leaf("Secret Value", "sv1", 1, 2)];
        v
    };
    let capture = EventCapture {
        principals: vec![rid(&[("Vault", "v1")])],
        resources: vec![rid(&[("Vault", "v1"), ("Secret", "s1")])],
        events: vec![Event {
            event_type: b"rotates".to_vec(),
            first_seen_at: 3,
            last_seen_at: 4,
        }],
    };
    let req = ReportRequest {
        resource_captures: vec![vault],
        event_captures: vec![capture],
    };
    ingest(&mut store, &req).unwrap();

    let q = run_query(&store, &QueryType::Secrets);
    let got: Vec<&ResourceId> = q.resources.iter().map(|r| &r.id).collect();
    assert_eq!(got.len(), 2);
    assert_eq!(*got[0], rid(&[("Vault", "v1"), ("Secret", "s1")]));
    assert_eq!(*got[1], rid(&[("Vault", "v1"), ("Secret Value", "sv1")]));
    let events = q.events.expect("the rotate edge ends at a secret");
    assert_eq!(events.len(), 1);
    assert_eq!(events[0].target, rid(&[("Vault", "v1"), ("Secret", "s1")]));
    // The closure reports the vault that holds the touched secrets.
    assert!(q.global_containers.contains(&rid(&[("Vault", "v1")])));
}

#[test]
fn secrets_query_requires_a_fetched_resource_record() {
    // An event edge whose endpoint is Secret-typed but has no resource
    // record must not appear in a typed query: the edge fetch intersects
    // the fetched resource id set, not the endpoint's type tag.
    let capture = EventCapture {
        principals: vec![rid(&[("Host", "h9")])],
        resources: vec![rid(&[("Secret", "ghost")])],
        events: vec![Event {
            event_type: b"reads".to_vec(),
            first_seen_at: 1,
            last_seen_at: 2,
        }],
    };
    let req = ReportRequest {
        resource_captures: vec![],
        event_captures: vec![capture],
    };
    let mut store = MemStore::new();
    ingest(&mut store, &req).unwrap();

    let q = run_query(&store, &QueryType::Secrets);
    assert!(q.resources.is_empty());
    assert!(q.events.is_none());
    assert!(q.global_containers.is_empty());
    // The full query still returns the edge unconditionally.
    let all = run_query(&store, &QueryType::All);
    assert_eq!(all.events.unwrap().len(), 1);
}

#[test]
fn secrets_query_keeps_edges_from_fetched_secrets() {
    // The intersection works in both directions: an edge leaving a fetched
    // secret is kept even when its target has no record.
    let mut store = MemStore::new();
    let secret = leaf("Secret", "s1", 1, 2);
    let capture = EventCapture {
        principals: vec![rid(&[("Secret", "s1")])],
        resources: vec![rid(&[("Host", "h9")])],
        events: vec![Event {
            event_type: b"leaks to".to_vec(),
            first_seen_at: 3,
            last_seen_at: 4,
        }],
    };
    let req = ReportRequest {
        resource_captures: vec![secret],
        event_captures: vec![capture],
    };
    ingest(&mut store, &req).unwrap();

    let q = run_query(&store, &QueryType::Secrets);
    assert_eq!(q.resources.len(), 1);
    let events = q.events.expect("the edge leaves a fetched secret");
    assert_eq!(events.len(), 1);
    assert_eq!(events[0].principal, rid(&[("Secret", "s1")]));
    assert_eq!(events[0].target, rid(&[("Host", "h9")]));
}

#[test]
fn failing_transaction_reports_real_error_and_rolls_back() {
    let mut store = MemStore::new();
    let key = ReportKey {
        id: 111111,
        description: None,
        created_at: None,
        created_by: 7,
        revoked_at: None,
        revoked_by: None,
    };
    create_report_key(&mut store, &key).unwrap();

    let stmts = vec![
        Statement::UpsertResource {
            id: rid(&[("Host", "h1")]),
            first_seen_at: 1,
            last_seen_at: 2,
        },
        Statement::UpsertResource {
            id: rid(&[("Host", "h2")]),
            first_seen_at: 1,
            last_seen_at: 2,
        },
        Statement::CreateReportKey {
            key_id: 111111,
            description: None,
            created_by: 9,
        },
        Statement::UpsertResource {
            id: rid(&[("Host", "h3")]),
            first_seen_at: 1,
            last_seen_at: 2,
        },
        Statement::UpsertEventEdge {
            principal: rid(&[("Host", "h1")]),
            target: rid(&[("Host", "h2")]),
            event_type: b"pings".to_vec(),
            first_seen_at: 1,
            last_seen_at: 2,
        },
    ];
    let outcomes = store.execute_transaction(&stmts);
    assert_eq!(outcomes.len(), 5);
    for (j, o) in outcomes.iter().enumerate() {
        if j == 2 {
            assert_eq!(
                *o,
                StatementOutcome::Failed(StoreError::ReportKeyAlreadyExists(111111))
            );
        } else {
            assert_eq!(*o, StatementOutcome::NotExecuted);
        }
    }
    // The executor recovers the third statement's real error.
    assert_eq!(
        check_first_real_error(&outcomes),
        Err(ExecError::Store {
            index: 2,
            error: StoreError::ReportKeyAlreadyExists(111111),
        })
    );
    // The first two statements' effects are rolled back.
    let q = run_query(&store, &QueryType::All);
    assert!(q.resources.is_empty());
    assert!(q.events.is_none());
}

#[test]
fn only_not_executed_statuses_is_an_invariant_violation() {
    let outcomes = vec![StatementOutcome::NotExecuted, StatementOutcome::NotExecuted];
    assert_eq!(
        check_first_real_error(&outcomes),
        Err(ExecError::InvariantViolation)
    );
    let ok = vec![StatementOutcome::Succeeded, StatementOutcome::Succeeded];
    assert_eq!(check_first_real_error(&ok), Ok(()));
}

#[test]
fn attribute_maps_merge_per_key() {
    let mut store = MemStore::new();
    let mut first = leaf("Host", "h1", 1, 2);
    first.attributes = vec![
        (b"os".to_vec(), b"\"linux\"".to_vec()),
        (b"cpu".to_vec(), b"4".to_vec()),
    ];
    ingest(
        &mut store,
        &ReportRequest {
            resource_captures: vec![first],
            event_captures: vec![],
        },
    )
    .unwrap();

    // A later observation with no attributes never clobbers merged ones,
    // and a new observation overwrites per key.
    let bare = leaf("Host", "h1", 5, 6);
    ingest(
        &mut store,
        &ReportRequest {
            resource_captures: vec![bare],
            event_captures: vec![],
        },
    )
    .unwrap();
    let mut second = leaf("Host", "h1", 7, 8);
    second.attributes = vec![(b"cpu".to_vec(), b"8".to_vec())];
    ingest(
        &mut store,
        &ReportRequest {
            resource_captures: vec![second],
            event_captures: vec![],
        },
    )
    .unwrap();

    let q = run_query(&store, &QueryType::All);
    assert_eq!(q.resources.len(), 1);
    let attrs = &q.resources[0].attributes;
    assert_eq!(attrs.len(), 2);
    assert!(attrs.contains(&(b"os".to_vec(), b"\"linux\"".to_vec())));
    assert!(attrs.contains(&(b"cpu".to_vec(), b"8".to_vec())));
}

#[test]
fn binding_names_count_up() {
    let mut counter: u64 = 0;
    assert_eq!(next_binding(&mut counter), "bind_0");
    assert_eq!(next_binding(&mut counter), "bind_1");
    assert_eq!(counter, 2);
    let mut big: u64 = 41;
    assert_eq!(next_binding(&mut big), "bind_41");
}

#[test]
fn table_name_embeds_account_id() {
    assert_eq!(
        dynamodb_resources_table_name_for_account("1234567890"),
        "archodex-service-data-a1234567890-resources"
    );
}
