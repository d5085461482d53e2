use archodex_engine::conn_cache::ConnCache;
use archodex_engine::account::{
    pick_least_loaded, table_poll_action, Account, AccountPublic, PollAction, ServiceDataLocation,
};
use archodex_engine::executor::ExecError;
use archodex_engine::report_key::{ReportKey, ReportKeyPublic};
use archodex_engine::report_keys::{
    create_report_key, list_report_keys, report_key_is_valid, revoke_report_key, ReportKeyError,
};
use archodex_engine::queries::{
    create_report_key_query, get_account_by_id_query, list_report_keys_query,
    report_key_is_valid_query, revoke_report_key_query,
};
use archodex_engine::store::{MemStore, StoreError};

fn fresh_key(id: u32) -> ReportKey {
    ReportKey {
        id,
        description: Some(b"ci pipeline".to_vec()),
        created_at: None,
        created_by: 77,
        revoked_at: None,
        revoked_by: None,
    }
}

#[test]
fn report_key_lifecycle_create_list_revoke() {
    let mut store = MemStore::new();
    create_report_key(&mut store, &fresh_key(123456)).unwrap();
    create_report_key(&mut store, &fresh_key(234567)).unwrap();

    assert!(report_key_is_valid(&store, 123456));
    assert!(report_key_is_valid(&store, 234567));
    assert!(!report_key_is_valid(&store, 999999));

    let listed = list_report_keys(&store);
    assert_eq!(listed.len(), 2);
    assert_eq!(listed[0].id, 123456);
    assert_eq!(listed[1].id, 234567);
    assert_eq!(listed[0].description, Some(b"ci pipeline".to_vec()));

    // Revocation is a side record, checked separately from the credential.
    revoke_report_key(&mut store, 123456, 88, 1000).unwrap();
    assert!(!report_key_is_valid(&store, 123456));
    assert!(report_key_is_valid(&store, 234567));
    let listed = list_report_keys(&store);
    assert_eq!(listed.len(), 1);
    assert_eq!(listed[0].id, 234567);

    // Revoking twice, or revoking an unknown id, reports not-found.
    assert_eq!(
        revoke_report_key(&mut store, 123456, 88, 2000),
        Err(ReportKeyError::NotFound)
    );
    assert_eq!(
        revoke_report_key(&mut store, 999999, 88, 2000),
        Err(ReportKeyError::NotFound)
    );
}

#[test]
fn creating_the_same_key_id_twice_conflicts() {
    let mut store = MemStore::new();
    create_report_key(&mut store, &fresh_key(123456)).unwrap();
    let r = create_report_key(&mut store, &fresh_key(123456));
    assert_eq!(
        r,
        Err(ExecError::Store {
            index: 0,
            error: StoreError::ReportKeyAlreadyExists(123456),
        })
    );
}

#[test]
fn new_report_keys_get_six_digit_ids() {
    for _ in 0..16 {
        let rk = ReportKey::new(None, 1);
        assert!((100000..=999999).contains(&rk.id()));
        assert!(rk.revoked_at.is_none());
    }
}

#[test]
fn report_key_public_drops_sensitive_fields() {
    let mut rk = fresh_key(123456);
    rk.created_at = Some(50);
    rk.revoked_at = Some(60);
    rk.revoked_by = Some(5);
    let p = ReportKeyPublic::from(rk);
    assert_eq!(p.id, 123456);
    assert_eq!(p.description, Some(b"ci pipeline".to_vec()));
    assert_eq!(p.created_at, Some(50));
}

#[test]
fn service_data_location_records_the_store_kind() {
    let loc = ServiceDataLocation::new("us-west-2".to_owned(), "098765432109".to_owned());
    assert_eq!(loc.location_type, "dynamodb");
    assert_eq!(loc.partition, "aws");
    assert_eq!(loc.account_id(), "098765432109");
}

#[test]
fn local_dev_accounts_use_the_fixed_id() {
    let a = Account::new(b"ep1".to_vec(), None, true);
    assert_eq!(a.id(), 1000000001);
    assert_eq!(a.salt().len(), 16);
    let b = Account::new(b"ep1".to_vec(), None, false);
    assert!((1000000000..=9999999999).contains(&b.id()));
    let p = AccountPublic::from(a);
    assert_eq!(p.id, 1000000001);
    assert_eq!(p.endpoint, b"ep1".to_vec());
}

#[test]
fn least_loaded_location_wins_first_on_ties() {
    assert_eq!(pick_least_loaded(&Vec::new()), None);
    let counts = vec![
        ("a1".to_owned(), 5u32),
        ("a2".to_owned(), 3),
        ("a3".to_owned(), 3),
        ("a4".to_owned(), 9),
    ];
    assert_eq!(pick_least_loaded(&counts), Some("a2".to_owned()));
}

#[test]
fn query_builders_render_bound_statements() {
    assert_eq!(
        list_report_keys_query(),
        "SELECT * FROM report_key WHERE type::is::none(revoked_at)"
    );
    let mut counter: u64 = 0;
    let (text, b1, b2, b3) = create_report_key_query(&mut counter);
    assert_eq!((b1.as_str(), b2.as_str(), b3.as_str()), ("bind_0", "bind_1", "bind_2"));
    assert_eq!(
        text,
        "CREATE $bind_0 CONTENT { description: $bind_1, created_by: $bind_2 }"
    );
    let (text, b1, b2) = revoke_report_key_query(&mut counter);
    assert_eq!((b1.as_str(), b2.as_str()), ("bind_3", "bind_4"));
    assert_eq!(
        text,
        "UPDATE $bind_3 SET revoked_at = time::now(), revoked_by = $bind_4 WHERE revoked_at IS NONE"
    );
    let (text, b1) = report_key_is_valid_query(&mut counter);
    assert_eq!(b1, "bind_5");
    assert_eq!(
        text,
        "SELECT type::is::none(revoked_at) AS valid FROM $bind_5"
    );
    let (text, b1) = get_account_by_id_query(&mut counter);
    assert_eq!(b1, "bind_6");
    assert_eq!(text, "SELECT * FROM ONLY $bind_6");
    assert_eq!(counter, 7);
}

#[test]
fn connection_cache_establishes_once_per_key() {
    let mut cache = ConnCache::new();
    let (h1, fresh1) = cache.get_or_connect(&"a1/resources".to_owned());
    assert!(fresh1);
    let (h2, fresh2) = cache.get_or_connect(&"a2/resources".to_owned());
    assert!(fresh2);
    assert_ne!(h1, h2);
    // A racer re-checking after the lock upgrade finds the first entry.
    let (h3, fresh3) = cache.get_or_connect(&"a1/resources".to_owned());
    assert!(!fresh3);
    assert_eq!(h1, h3);
}

#[test]
fn provisioning_poll_gives_up_after_thirty_seconds() {
    assert_eq!(table_poll_action(true, 0), PollAction::Ready);
    assert_eq!(table_poll_action(true, 100), PollAction::Ready);
    assert_eq!(table_poll_action(false, 10), PollAction::Retry);
    assert_eq!(table_poll_action(false, 30), PollAction::Retry);
    assert_eq!(table_poll_action(false, 31), PollAction::GiveUp);
}
