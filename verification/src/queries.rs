use vstd::prelude::*;
use vstd::string::StringExecFns;
use crate::codec::dec_str;
use crate::next_binding;

verus! {

/// The name of the binding a counter value produces.
pub open spec fn bind_name(c: nat) -> Seq<char> {
    "bind_"@ + dec_str(c)
}

/// The read statement listing the unrevoked report keys. It takes no
/// parameters, so its text is fixed.
pub fn list_report_keys_query() -> (r: String)
    ensures
        r@ == "SELECT * FROM report_key WHERE type::is::none(revoked_at)"@,
{
    "SELECT * FROM report_key WHERE type::is::none(revoked_at)".to_owned()
}

/// The create statement for a report-key record: the statement text and the
/// three binding names for the record id, the description and the creating
/// user, in that order. The caller binds the values; the text holds only
/// parameter references, which keeps it safe from injection.
pub fn create_report_key_query(counter: &mut u64) -> (r: (String, String, String, String))
    requires
        *old(counter) < u64::MAX - 3,
    ensures
        *final(counter) == *old(counter) + 3,
        r.1@ == bind_name(*old(counter) as nat),
        r.2@ == bind_name((*old(counter) + 1) as nat),
        r.3@ == bind_name((*old(counter) + 2) as nat),
        r.0@ == "CREATE $"@ + r.1@ + " CONTENT { description: $"@ + r.2@ + ", created_by: $"@
            + r.3@ + " }"@,
{
    let report_key_binding = next_binding(counter);
    let description_binding = next_binding(counter);
    let created_by_binding = next_binding(counter);
    let mut text = "CREATE $".to_owned();
    text.append(report_key_binding.as_str());
    text.append(" CONTENT { description: $");
    text.append(description_binding.as_str());
    text.append(", created_by: $");
    text.append(created_by_binding.as_str());
    text.append(" }");
    proof {
        assert(text@ =~= "CREATE $"@ + report_key_binding@ + " CONTENT { description: $"@
            + description_binding@ + ", created_by: $"@ + created_by_binding@ + " }"@);
    }
    (text, report_key_binding, description_binding, created_by_binding)
}

/// The revoke statement: mark the record with the revocation time and actor,
/// only where no revocation mark exists yet. The binding names are for the
/// record id and the revoking user.
pub fn revoke_report_key_query(counter: &mut u64) -> (r: (String, String, String))
    requires
        *old(counter) < u64::MAX - 2,
    ensures
        *final(counter) == *old(counter) + 2,
        r.1@ == bind_name(*old(counter) as nat),
        r.2@ == bind_name((*old(counter) + 1) as nat),
        r.0@ == "UPDATE $"@ + r.1@ + " SET revoked_at = time::now(), revoked_by = $"@ + r.2@
            + " WHERE revoked_at IS NONE"@,
{
    let report_key_binding = next_binding(counter);
    let revoked_by_binding = next_binding(counter);
    let mut text = "UPDATE $".to_owned();
    text.append(report_key_binding.as_str());
    text.append(" SET revoked_at = time::now(), revoked_by = $");
    text.append(revoked_by_binding.as_str());
    text.append(" WHERE revoked_at IS NONE");
    proof {
        assert(text@ =~= "UPDATE $"@ + report_key_binding@
            + " SET revoked_at = time::now(), revoked_by = $"@ + revoked_by_binding@
            + " WHERE revoked_at IS NONE"@);
    }
    (text, report_key_binding, revoked_by_binding)
}

/// The activity-check statement: whether the record carries no revocation
/// mark. The binding name is for the record id.
pub fn report_key_is_valid_query(counter: &mut u64) -> (r: (String, String))
    requires
        *old(counter) < u64::MAX - 1,
    ensures
        *final(counter) == *old(counter) + 1,
        r.1@ == bind_name(*old(counter) as nat),
        r.0@ == "SELECT type::is::none(revoked_at) AS valid FROM $"@ + r.1@,
{
    let report_key_binding = next_binding(counter);
    let mut text = "SELECT type::is::none(revoked_at) AS valid FROM $".to_owned();
    text.append(report_key_binding.as_str());
    proof {
        assert(text@ =~= "SELECT type::is::none(revoked_at) AS valid FROM $"@
            + report_key_binding@);
    }
    (text, report_key_binding)
}

/// The create statement for an account record: binding names for the record
/// id, the endpoint, the service data location and the salt, in that order.
pub fn create_account_query(counter: &mut u64) -> (r: (String, String, String, String, String))
    requires
        *old(counter) < u64::MAX - 4,
    ensures
        *final(counter) == *old(counter) + 4,
        r.1@ == bind_name(*old(counter) as nat),
        r.2@ == bind_name((*old(counter) + 1) as nat),
        r.3@ == bind_name((*old(counter) + 2) as nat),
        r.4@ == bind_name((*old(counter) + 3) as nat),
        r.0@ == "CREATE $"@ + r.1@ + " CONTENT { endpoint: $"@ + r.2@
            + ", service_data_location: $"@ + r.3@ + ", salt: $"@ + r.4@ + " } RETURN NONE"@,
{
    let account_binding = next_binding(counter);
    let endpoint_binding = next_binding(counter);
    let location_binding = next_binding(counter);
    let salt_binding = next_binding(counter);
    let mut text = "CREATE $".to_owned();
    text.append(account_binding.as_str());
    text.append(" CONTENT { endpoint: $");
    text.append(endpoint_binding.as_str());
    text.append(", service_data_location: $");
    text.append(location_binding.as_str());
    text.append(", salt: $");
    text.append(salt_binding.as_str());
    text.append(" } RETURN NONE");
    proof {
        assert(text@ =~= "CREATE $"@ + account_binding@ + " CONTENT { endpoint: $"@
            + endpoint_binding@ + ", service_data_location: $"@ + location_binding@ + ", salt: $"@
            + salt_binding@ + " } RETURN NONE"@);
    }
    (text, account_binding, endpoint_binding, location_binding, salt_binding)
}

/// The statement granting a user access to an account: binding names for the
/// user and the account.
pub fn add_account_access_for_user_query(counter: &mut u64) -> (r: (String, String, String))
    requires
        *old(counter) < u64::MAX - 2,
    ensures
        *final(counter) == *old(counter) + 2,
        r.1@ == bind_name(*old(counter) as nat),
        r.2@ == bind_name((*old(counter) + 1) as nat),
        r.0@ == "RELATE $"@ + r.1@ + "->has_access->$"@ + r.2@ + " RETURN NONE"@,
{
    let user_binding = next_binding(counter);
    let account_binding = next_binding(counter);
    let mut text = "RELATE $".to_owned();
    text.append(user_binding.as_str());
    text.append("->has_access->$");
    text.append(account_binding.as_str());
    text.append(" RETURN NONE");
    proof {
        assert(text@ =~= "RELATE $"@ + user_binding@ + "->has_access->$"@ + account_binding@
            + " RETURN NONE"@);
    }
    (text, user_binding, account_binding)
}

/// The lookup statement for one account record by id: the binding name is
/// for the record id.
pub fn get_account_by_id_query(counter: &mut u64) -> (r: (String, String))
    requires
        *old(counter) < u64::MAX - 1,
    ensures
        *final(counter) == *old(counter) + 1,
        r.1@ == bind_name(*old(counter) as nat),
        r.0@ == "SELECT * FROM ONLY $"@ + r.1@,
{
    let account_binding = next_binding(counter);
    let mut text = "SELECT * FROM ONLY $".to_owned();
    text.append(account_binding.as_str());
    proof {
        assert(text@ =~= "SELECT * FROM ONLY $"@ + account_binding@);
    }
    (text, account_binding)
}

} // verus!
