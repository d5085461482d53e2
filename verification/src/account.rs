use vstd::prelude::*;

verus! {

/// Relies on rand::Rng::gen_range over `1000000000..=9999999999` with the
/// thread rng: a fresh ten-digit tenant id. Nothing else can be promised of
/// a random value.
#[verifier::external_body]
fn random_tenant_id() -> (r: u64)
    ensures
        1000000000 <= r <= 9999999999,
{
    rand::Rng::gen_range(&mut rand::thread_rng(), 1000000000u64..=9999999999u64)
}

/// Relies on rand::Rng::gen for a 16-byte array with the thread rng: a fresh
/// random salt of fixed length.
#[verifier::external_body]
fn random_salt() -> (r: Vec<u8>)
    ensures
        r@.len() == 16,
{
    rand::Rng::gen::<[u8; 16]>(&mut rand::thread_rng()).to_vec()
}

/// Where a tenant's service data physically lives.
pub struct ServiceDataLocation {
    pub location_type: String,
    pub partition: String,
    pub region: String,
    pub account_id: String,
}

impl ServiceDataLocation {
    pub fn new(region: String, account_id: String) -> (r: Self)
        ensures
            r.location_type@ == "dynamodb"@,
            r.partition@ == "aws"@,
            r.region == region,
            r.account_id == account_id,
    {
        ServiceDataLocation {
            location_type: "dynamodb".to_owned(),
            partition: "aws".to_owned(),
            region,
            account_id,
        }
    }

    pub fn account_id(&self) -> (r: &str)
        ensures
            r@ == self.account_id@,
    {
        self.account_id.as_str()
    }
}

/// A tenant account: a ten-digit id, the endpoint its credentials are bound
/// to, where its data lives, and a random salt.
pub struct Account {
    pub id: u64,
    pub endpoint: Vec<u8>,
    pub service_data_location: Option<ServiceDataLocation>,
    pub salt: Vec<u8>,
    pub created_at: Option<i64>,
}

impl Account {
    /// A fresh account: the fixed development id in local development, a
    /// random ten-digit id otherwise, with a fresh 16-byte salt.
    pub fn new(
        endpoint: Vec<u8>,
        service_data_location: Option<ServiceDataLocation>,
        local_dev: bool,
    ) -> (r: Self)
        ensures
            local_dev ==> r.id == 1000000001,
            1000000000 <= r.id <= 9999999999,
            r.endpoint == endpoint,
            r.service_data_location == service_data_location,
            r.salt@.len() == 16,
            r.created_at is None,
    {
        let id: u64 = if local_dev {
            1000000001
        } else {
            random_tenant_id()
        };
        Account { id, endpoint, service_data_location, salt: random_salt(), created_at: None }
    }

    pub fn id(&self) -> (r: u64)
        ensures
            r == self.id,
    {
        self.id
    }

    pub fn service_data_location(&self) -> (r: &Option<ServiceDataLocation>)
        ensures
            r == &self.service_data_location,
    {
        &self.service_data_location
    }

    pub fn salt(&self) -> (r: &Vec<u8>)
        ensures
            r@ == self.salt@,
    {
        &self.salt
    }
}

/// The fields of an account that are safe to list.
pub struct AccountPublic {
    pub id: u64,
    pub endpoint: Vec<u8>,
}

impl From<Account> for AccountPublic {
    fn from(record: Account) -> (r: AccountPublic) {
        AccountPublic { id: record.id, endpoint: record.endpoint }
    }
}

impl vstd::std_specs::convert::FromSpecImpl<Account> for AccountPublic {
    open spec fn obeys_from_spec() -> bool {
        true
    }

    open spec fn from_spec(record: Account) -> Self {
        AccountPublic { id: record.id, endpoint: record.endpoint }
    }
}

/// Pick the least-loaded location from `(id, table count)` pairs: the first
/// entry achieving the minimum count; earlier entries win ties.
pub fn pick_least_loaded(counts: &Vec<(String, u32)>) -> (r: Option<String>)
    ensures
        r is Some <==> counts@.len() > 0,
        match r {
            Some(s) => exists|i: int|
                0 <= i < counts@.len() && s@ == (#[trigger] counts@[i]).0@ && (forall|j: int|
                    0 <= j < counts@.len() ==> (#[trigger] counts@[j]).1 >= counts@[i].1) && (
                forall|j: int| 0 <= j < i ==> (#[trigger] counts@[j]).1 > counts@[i].1),
            None => true,
        },
{
    let n = counts.len();
    if n == 0 {
        return None;
    }
    let mut best: usize = 0;
    let mut j: usize = 1;
    while j < n
        invariant
            n == counts@.len(),
            best < j <= n,
            forall|k: int| 0 <= k < j ==> (#[trigger] counts@[k]).1 >= counts@[best as int].1,
            forall|k: int| 0 <= k < best ==> (#[trigger] counts@[k]).1 > counts@[best as int].1,
        decreases n - j,
    {
        if counts[j].1 < counts[best].1 {
            best = j;
        }
        j += 1;
    }
    Some(counts[best].0.clone())
}

/// What a provisioning poll loop does next, given whether the table has
/// become active and how long it has waited: ready, retry after a pause, or
/// give up past the thirty-second deadline.
#[derive(Clone, Copy, Debug, PartialEq, Eq, Structural)]
pub enum PollAction {
    Ready,
    Retry,
    GiveUp,
}

pub fn table_poll_action(active: bool, elapsed_secs: u64) -> (r: PollAction)
    ensures
        active ==> r == PollAction::Ready,
        !active && elapsed_secs <= 30 ==> r == PollAction::Retry,
        !active && elapsed_secs > 30 ==> r == PollAction::GiveUp,
{
    if active {
        PollAction::Ready
    } else if elapsed_secs <= 30 {
        PollAction::Retry
    } else {
        PollAction::GiveUp
    }
}

} // verus!
