use vstd::prelude::*;
use crate::codec::{mint, mint_witness, valid_credential, validate, CredentialError};

verus! {

/// Relies on rand::Rng::gen_range over `100000..=999999` with the thread
/// rng: a fresh key id in the six-digit range. Nothing else can be promised
/// of a random value.
#[verifier::external_body]
fn random_key_id() -> (r: u32)
    ensures
        100000 <= r <= 999999,
{
    rand::Rng::gen_range(&mut rand::thread_rng(), 100000..=999999)
}

/// A report-key record as the dashboard sees it: a small distinct numeric
/// handle for listing and revocation, never the secret credential itself.
pub struct ReportKey {
    pub id: u32,
    pub description: Option<Vec<u8>>,
    pub created_at: Option<i64>,
    pub created_by: u128,
    pub revoked_at: Option<i64>,
    pub revoked_by: Option<u128>,
}

impl ReportKey {
    /// A fresh, unrevoked key with a random six-digit id.
    pub fn new(description: Option<Vec<u8>>, created_by: u128) -> (r: Self)
        ensures
            100000 <= r.id <= 999999,
            r.description == description,
            r.created_at is None,
            r.created_by == created_by,
            r.revoked_at is None,
            r.revoked_by is None,
    {
        ReportKey {
            id: random_key_id(),
            description,
            created_at: None,
            created_by,
            revoked_at: None,
            revoked_by: None,
        }
    }

    pub fn id(&self) -> (r: u32)
        ensures
            r == self.id,
    {
        self.id
    }

    /// Mint the opaque bearer credential for this key: the tenant id sealed
    /// under the deployment key, bound to this key id and endpoint. The value
    /// is shown only once; only its key id is stored.
    pub fn generate_value(&self, key: &Vec<u8>, account_id: u64, endpoint: &Vec<u8>) -> (r: Vec<
        u8,
    >)
        requires
            key@.len() == 16,
            endpoint@.len() <= 255,
            100000 <= self.id <= 999999,
        ensures
            exists|nonce: Seq<u8>| #[trigger] mint_witness(
                key@,
                self.id,
                account_id,
                endpoint@,
                nonce,
                r@,
            ),
            r@.len() <= 512,
    {
        mint(key, self.id, account_id, endpoint)
    }

    /// Validate a credential against this deployment's key and endpoint and
    /// return the tenant and key ids it carries. The caller must still check
    /// that the key id exists for the tenant and has not been revoked.
    pub fn validate_value(key: &Vec<u8>, endpoint: &Vec<u8>, value: &Vec<u8>) -> (r: Result<
        (u64, u32),
        CredentialError,
    >)
        requires
            key@.len() == 16,
            value@.len() < 0x1000_0000,
        ensures
            r is Ok ==> valid_credential(key@, endpoint@, value@, r->Ok_0.0, r->Ok_0.1),
            r is Err ==> forall|t: u64, k: u32| !valid_credential(key@, endpoint@, value@, t, k),
            forall|n: Seq<u8>, t: u64, k: u32|
                #[trigger] mint_witness(key@, k, t, endpoint@, n, value@) ==> r == Ok::<
                    (u64, u32),
                    CredentialError,
                >((t, k)),
            forall|n: Seq<u8>, t: u64, k: u32, ep2: Seq<u8>|
                #[trigger] mint_witness(key@, k, t, ep2, n, value@) && ep2 != endpoint@ ==> r
                    is Err,
    {
        validate(key, endpoint, value)
    }
}

/// The fields of a report key that are safe to list.
pub struct ReportKeyPublic {
    pub id: u32,
    pub description: Option<Vec<u8>>,
    pub created_at: Option<i64>,
}

impl From<ReportKey> for ReportKeyPublic {
    fn from(record: ReportKey) -> (r: ReportKeyPublic) {
        ReportKeyPublic {
            id: record.id,
            description: record.description,
            created_at: record.created_at,
        }
    }
}

impl vstd::std_specs::convert::FromSpecImpl<ReportKey> for ReportKeyPublic {
    open spec fn obeys_from_spec() -> bool {
        true
    }

    open spec fn from_spec(record: ReportKey) -> Self {
        ReportKeyPublic {
            id: record.id,
            description: record.description,
            created_at: record.created_at,
        }
    }
}

/// The answer of the activity check run after `validate_value`: whether the
/// key id still exists and has not been revoked.
pub struct ReportKeyIsValidQueryResponse {
    pub valid: bool,
}

impl ReportKeyIsValidQueryResponse {
    pub fn is_valid(&self) -> (r: bool)
        ensures
            r == self.valid,
    {
        self.valid
    }
}

} // verus!
