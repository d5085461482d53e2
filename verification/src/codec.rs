use vstd::prelude::*;

verus! {

use vstd::string::StringSliceAdditionalSpecFns;
use vstd::string::StrSliceExecFns;
use crate::crypto::{aead_seal, b64_encode, b64_of, random_nonce, seal_of};
use crate::ids::copy_bytes;

/// The decimal digit bytes of `n`, most significant first, no sign, no
/// leading zeros (a single `0` for zero).
pub open spec fn dec_bytes(n: nat) -> Seq<u8>
    decreases n,
{
    if n < 10 {
        seq![(48 + n) as u8]
    } else {
        dec_bytes(n / 10).push((48 + n % 10) as u8)
    }
}

/// The numeric value of a digit string (only meaningful under `all_digits`).
pub open spec fn dec_val(s: Seq<u8>) -> nat
    decreases s.len(),
{
    if s.len() == 0 {
        0
    } else {
        dec_val(s.drop_last()) * 10 + digit_val(s.last())
    }
}

pub open spec fn digit_val(b: u8) -> nat {
    if 48 <= b <= 57 {
        (b - 48) as nat
    } else {
        0
    }
}

pub open spec fn all_digits(s: Seq<u8>) -> bool {
    forall|i: int| 0 <= i < s.len() ==> 48 <= #[trigger] s[i] <= 57
}

/// What parsing a decimal byte string yields: its value, provided the string
/// is non-empty, all digits (leading zeros allowed), and the value fits.
pub open spec fn parse_dec_spec(s: Seq<u8>) -> Option<u64> {
    if s.len() > 0 && all_digits(s) && dec_val(s) <= u64::MAX {
        Some(dec_val(s) as u64)
    } else {
        None
    }
}

pub proof fn lemma_dec_bytes_digits(n: nat)
    ensures
        all_digits(dec_bytes(n)),
        dec_bytes(n).len() > 0,
    decreases n,
{
    if n < 10 {
    } else {
        lemma_dec_bytes_digits(n / 10);
        assert forall|i: int| 0 <= i < dec_bytes(n).len() implies 48 <= #[trigger] dec_bytes(n)[i]
            <= 57 by {
            if i < dec_bytes(n / 10).len() {
                assert(dec_bytes(n)[i] == dec_bytes(n / 10)[i]);
            }
        }
    }
}

/// Rendering then parsing gives the number back.
pub proof fn lemma_dec_round_trip(n: nat)
    ensures
        dec_val(dec_bytes(n)) == n,
    decreases n,
{
    assert(dec_bytes(n).len() > 0) by {
        lemma_dec_bytes_digits(n);
    }
    assert(dec_val(dec_bytes(n)) == dec_val(dec_bytes(n).drop_last()) * 10 + digit_val(
        dec_bytes(n).last(),
    ));
    if n < 10 {
        assert(dec_bytes(n).drop_last() =~= Seq::<u8>::empty());
        assert(dec_val(Seq::<u8>::empty()) == 0);
    } else {
        lemma_dec_round_trip(n / 10);
        assert(dec_bytes(n).drop_last() =~= dec_bytes(n / 10));
        assert(dec_bytes(n).last() == (48 + n % 10) as u8);
        assert(digit_val(dec_bytes(n).last()) == n % 10);
        vstd::arithmetic::div_mod::lemma_fundamental_div_mod(n as int, 10);
    }
}

/// `pow10(k)` is ten to the `k`.
pub open spec fn pow10(k: nat) -> nat
    decreases k,
{
    if k == 0 {
        1
    } else {
        10 * pow10((k - 1) as nat)
    }
}

pub proof fn lemma_dec_bytes_len(n: nat, k: nat)
    requires
        k >= 1,
        n < pow10(k),
    ensures
        dec_bytes(n).len() <= k,
    decreases k,
{
    if n < 10 {
    } else {
        assert(k >= 2) by {
            reveal_with_fuel(pow10, 3);
            if k == 1 {
                assert(pow10(1nat) == 10);
            }
        }
        assert(n / 10 < pow10((k - 1) as nat)) by (nonlinear_arith)
            requires
                n < pow10(k),
                pow10(k) == 10 * pow10((k - 1) as nat),
                n >= 10,
        ;
        lemma_dec_bytes_len(n / 10, (k - 1) as nat);
    }
}

/// Any value of `u64` takes at most twenty decimal digits.
pub proof fn lemma_dec_bytes_len_u64(n: u64)
    ensures
        dec_bytes(n as nat).len() <= 20,
{
    reveal_with_fuel(pow10, 21);
    assert(pow10(20) == 100000000000000000000);
    lemma_dec_bytes_len(n as nat, 20);
}

/// With `all_digits`, the value of a longer prefix is at least that of a
/// shorter one.
proof fn lemma_dec_val_monotonic(s: Seq<u8>, i: int)
    requires
        0 <= i <= s.len(),
    ensures
        dec_val(s) >= dec_val(s.take(i)),
    decreases s.len() - i,
{
    if i == s.len() {
        assert(s.take(i) =~= s);
    } else {
        lemma_dec_val_monotonic(s, i + 1);
        assert(s.take(i + 1).drop_last() =~= s.take(i));
        assert(dec_val(s.take(i + 1)) == dec_val(s.take(i)) * 10 + digit_val(s.take(i + 1).last()));
        assert(dec_val(s.take(i)) * 10 >= dec_val(s.take(i))) by (nonlinear_arith);
    }
}

/// Parse a decimal byte string: non-empty, digits only (leading zeros
/// allowed), value within `u64`; anything else is rejected.
pub fn parse_dec(s: &Vec<u8>) -> (r: Option<u64>)
    ensures
        r == parse_dec_spec(s@),
{
    let n = s.len();
    if n == 0 {
        return None;
    }
    let mut acc: u64 = 0;
    let mut i: usize = 0;
    while i < n
        invariant
            n == s@.len(),
            0 < n,
            i <= n,
            all_digits(s@.take(i as int)),
            acc == dec_val(s@.take(i as int)),
        decreases n - i,
    {
        let b = s[i];
        if b < 48 || b > 57 {
            assert(!all_digits(s@)) by {
                assert(s@[i as int] == b);
            }
            return None;
        }
        let d: u64 = (b - 48) as u64;
        if acc > u64::MAX / 10 {
            proof {
                assert(s@.take(i + 1).drop_last() =~= s@.take(i as int));
                assert(dec_val(s@.take(i + 1)) == acc * 10 + digit_val(b));
                assert(acc * 10 > u64::MAX) by (nonlinear_arith)
                    requires
                        acc > u64::MAX / 10,
                ;
                lemma_dec_val_monotonic(s@, i + 1);
            }
            return None;
        }
        let acc2 = acc * 10;
        if d > u64::MAX - acc2 {
            proof {
                assert(s@.take(i + 1).drop_last() =~= s@.take(i as int));
                lemma_dec_val_monotonic(s@, i + 1);
            }
            return None;
        }
        proof {
            assert(s@.take(i + 1).drop_last() =~= s@.take(i as int));
            assert(s@.take(i + 1).last() == b);
            assert forall|j: int| 0 <= j < i + 1 implies 48 <= #[trigger] s@.take(i + 1)[j]
                <= 57 by {
                if j < i {
                    assert(s@.take(i + 1)[j] == s@.take(i as int)[j]);
                }
            }
        }
        acc = acc2 + d;
        i += 1;
    }
    proof {
        assert(s@.take(n as int) =~= s@);
    }
    Some(acc)
}

/// The decimal digit character for one digit value.
pub open spec fn digit_char(n: nat) -> char {
    if n == 0 {
        '0'
    } else if n == 1 {
        '1'
    } else if n == 2 {
        '2'
    } else if n == 3 {
        '3'
    } else if n == 4 {
        '4'
    } else if n == 5 {
        '5'
    } else if n == 6 {
        '6'
    } else if n == 7 {
        '7'
    } else if n == 8 {
        '8'
    } else {
        '9'
    }
}

/// The decimal text of `n`, most significant digit first.
pub open spec fn dec_str(n: nat) -> Seq<char>
    decreases n,
{
    if n < 10 {
        seq![digit_char(n)]
    } else {
        dec_str(n / 10).push(digit_char(n % 10))
    }
}

fn digit_str(d: u64) -> (r: &'static str)
    requires
        d < 10,
    ensures
        r@ == seq![digit_char(d as nat)],
{
    proof {
        reveal_strlit("0");
        reveal_strlit("1");
        reveal_strlit("2");
        reveal_strlit("3");
        reveal_strlit("4");
        reveal_strlit("5");
        reveal_strlit("6");
        reveal_strlit("7");
        reveal_strlit("8");
        reveal_strlit("9");
    }
    let r = if d == 0 {
        "0"
    } else if d == 1 {
        "1"
    } else if d == 2 {
        "2"
    } else if d == 3 {
        "3"
    } else if d == 4 {
        "4"
    } else if d == 5 {
        "5"
    } else if d == 6 {
        "6"
    } else if d == 7 {
        "7"
    } else if d == 8 {
        "8"
    } else {
        "9"
    };
    proof {
        assert(r@ =~= seq![digit_char(d as nat)]);
    }
    r
}

/// The decimal text of `n` as a `String`.
pub fn u64_dec_string(n: u64) -> (r: String)
    ensures
        r@ == dec_str(n as nat),
    decreases n,
{
    if n < 10 {
        digit_str(n).to_owned()
    } else {
        let mut s = u64_dec_string(n / 10);
        s.append(digit_str(n % 10));
        proof {
            assert(s@ =~= dec_str(n as nat));
        }
        s
    }
}

/// The fixed tag every report credential starts with.
pub open spec fn prefix_bytes() -> Seq<u8> {
    "archodex_report_key_".spec_bytes()
}

/// The associated data binding a credential to its key id and endpoint.
pub open spec fn aad_of(key_id: u32, endpoint: Seq<u8>) -> Seq<u8> {
    "key_id=".spec_bytes() + dec_bytes(key_id as nat) + ";endpoint=".spec_bytes() + endpoint
}

/// The plaintext carrying the tenant id, in its canonical decimal form.
pub open spec fn account_plain(tenant: u64) -> Seq<u8> {
    "account_id=".spec_bytes() + dec_bytes(tenant as nat)
}

/// The serialized payload before base64: one length byte and the endpoint,
/// one length byte and the nonce, then the ciphertext with its tag.
pub open spec fn payload_of(endpoint: Seq<u8>, nonce: Seq<u8>, ct: Seq<u8>) -> Seq<u8> {
    seq![endpoint.len() as u8] + endpoint + seq![nonce.len() as u8] + nonce + ct
}

/// A full credential: the fixed tag, the key id digits, an underscore, and
/// the base64 text of the payload.
pub open spec fn credential_of(kid_digits: Seq<u8>, payload: Seq<u8>) -> Seq<u8> {
    prefix_bytes() + kid_digits + seq![95u8] + b64_of(payload)
}

/// The credential minted for `(key_id, tenant, endpoint)` under `key` with a
/// given nonce.
pub open spec fn minted(
    key: Seq<u8>,
    key_id: u32,
    tenant: u64,
    endpoint: Seq<u8>,
    nonce: Seq<u8>,
) -> Seq<u8> {
    credential_of(
        dec_bytes(key_id as nat),
        payload_of(
            endpoint,
            nonce,
            seal_of(key, nonce, aad_of(key_id, endpoint), account_plain(tenant)),
        ),
    )
}

/// The sealing length fact a fresh mint establishes: ciphertext is plaintext
/// plus the 16-byte tag.
pub open spec fn sealed_len_ok(
    key: Seq<u8>,
    key_id: u32,
    tenant: u64,
    endpoint: Seq<u8>,
    nonce: Seq<u8>,
) -> bool {
    seal_of(key, nonce, aad_of(key_id, endpoint), account_plain(tenant)).len() == account_plain(
        tenant,
    ).len() + 16
}

/// Witness facts tying a minted credential string to its parameters.
pub open spec fn mint_witness(
    key: Seq<u8>,
    key_id: u32,
    tenant: u64,
    endpoint: Seq<u8>,
    nonce: Seq<u8>,
    v: Seq<u8>,
) -> bool {
    &&& nonce.len() == 12
    &&& 100000 <= key_id <= 999999
    &&& endpoint.len() <= 255
    &&& v == minted(key, key_id, tenant, endpoint, nonce)
    &&& sealed_len_ok(key, key_id, tenant, endpoint, nonce)
}

/// One decomposition of a byte string as an acceptable credential for this
/// deployment's key and endpoint, yielding tenant and key ids. The digit
/// strings are free so that non-canonical (zero-padded) digits are covered.
pub open spec fn valid_parts(
    key: Seq<u8>,
    endpoint: Seq<u8>,
    v: Seq<u8>,
    tenant: u64,
    kid: u32,
    kd: Seq<u8>,
    td: Seq<u8>,
    nonce: Seq<u8>,
    ct: Seq<u8>,
) -> bool {
    &&& kd.len() > 0
    &&& all_digits(kd)
    &&& dec_val(kd) == kid as nat
    &&& 100000 <= kid <= 999999
    &&& endpoint.len() <= 255
    &&& nonce.len() == 12
    &&& ct.len() > 0
    &&& v == credential_of(kd, payload_of(endpoint, nonce, ct))
    &&& td.len() > 0
    &&& td.len() + 11 < 0x1000_0000
    &&& all_digits(td)
    &&& dec_val(td) == tenant as nat
    &&& ct == seal_of(key, nonce, aad_of(kid, endpoint), "account_id=".spec_bytes() + td)
}

/// Whether `v` is a credential this deployment accepts as `(tenant, kid)`.
pub open spec fn valid_credential(
    key: Seq<u8>,
    endpoint: Seq<u8>,
    v: Seq<u8>,
    tenant: u64,
    kid: u32,
) -> bool {
    exists|kd: Seq<u8>, td: Seq<u8>, nonce: Seq<u8>, ct: Seq<u8>|
        valid_parts(key, endpoint, v, tenant, kid, kd, td, nonce, ct)
}

/// Byte lengths of the fixed text fragments of the credential format.
proof fn lemma_lit_lens()
    ensures
        prefix_bytes().len() == 20,
        "key_id=".spec_bytes().len() == 7,
        ";endpoint=".spec_bytes().len() == 10,
        "account_id=".spec_bytes().len() == 11,
{
    broadcast use vstd::string::is_ascii_spec_bytes;

    reveal_strlit("archodex_report_key_");
    reveal_strlit("key_id=");
    reveal_strlit(";endpoint=");
    reveal_strlit("account_id=");
    assert(vstd::string::is_ascii("archodex_report_key_"));
    assert(vstd::string::is_ascii("key_id="));
    assert(vstd::string::is_ascii(";endpoint="));
    assert(vstd::string::is_ascii("account_id="));
}

/// Build the associated data for `(key_id, endpoint)`.
fn make_aad(key_id: u32, endpoint: &Vec<u8>) -> (r: Vec<u8>)
    requires
        key_id <= 999999,
        endpoint@.len() <= 255,
    ensures
        r@ == aad_of(key_id, endpoint@),
        r@.len() <= 300,
{
    let mut r = "key_id=".as_bytes_vec();
    let mut d = u64_dec(key_id as u64);
    r.append(&mut d);
    let mut sep = ";endpoint=".as_bytes_vec();
    r.append(&mut sep);
    let mut ep = copy_bytes(endpoint);
    r.append(&mut ep);
    proof {
        lemma_lit_lens();
        reveal_with_fuel(pow10, 7);
        assert(pow10(6) == 1000000);
        lemma_dec_bytes_len(key_id as nat, 6);
        assert(r@ =~= aad_of(key_id, endpoint@));
    }
    r
}

/// Mint a report credential: bind the tenant id to `(key_id, endpoint)` with
/// a fresh random nonce under the deployment key, and serialize it as the
/// tagged, base64-coded bearer string (returned as its ASCII bytes).
pub fn mint(key: &Vec<u8>, key_id: u32, tenant: u64, endpoint: &Vec<u8>) -> (r: Vec<u8>)
    requires
        key@.len() == 16,
        endpoint@.len() <= 255,
        100000 <= key_id <= 999999,
    ensures
        exists|nonce: Seq<u8>| #[trigger] mint_witness(key@, key_id, tenant, endpoint@, nonce, r@),
        r@.len() <= 512,
{
    let nonce = random_nonce();
    let aad = make_aad(key_id, endpoint);
    let mut plain = "account_id=".as_bytes_vec();
    let mut td = u64_dec(tenant);
    plain.append(&mut td);
    proof {
        lemma_lit_lens();
        lemma_dec_bytes_len_u64(tenant);
        assert(plain@ == account_plain(tenant));
    }
    let ct = aead_seal(key, &nonce, &aad, &plain);

    let mut payload: Vec<u8> = Vec::new();
    payload.push(endpoint.len() as u8);
    let mut epc = copy_bytes(endpoint);
    payload.append(&mut epc);
    payload.push(12u8);
    let mut nc = copy_bytes(&nonce);
    payload.append(&mut nc);
    let mut ctc = ct;
    payload.append(&mut ctc);
    proof {
        assert(payload@ =~= payload_of(endpoint@, nonce@, seal_of(
            key@,
            nonce@,
            aad_of(key_id, endpoint@),
            account_plain(tenant),
        )));
    }

    let b64 = b64_encode(&payload);
    let mut out = "archodex_report_key_".as_bytes_vec();
    let mut kd = u64_dec(key_id as u64);
    out.append(&mut kd);
    out.push(95u8);
    let mut b = b64;
    out.append(&mut b);
    proof {
        assert(out@ =~= minted(key@, key_id, tenant, endpoint@, nonce@));
        assert(mint_witness(key@, key_id, tenant, endpoint@, nonce@, out@));
        // The serialized value is short: tag and separator, at most six key
        // digits, and the base64 text of a payload of at most 316 bytes.
        reveal_with_fuel(pow10, 7);
        assert(pow10(6) == 1000000);
        lemma_dec_bytes_len(key_id as nat, 6);
        assert(payload@.len() <= 316);
        assert(b64@.len() <= 424);
        assert(out@.len() <= 512);
    }
    out
}

/// The ciphertext a mint for these parameters carries.
pub open spec fn minted_ct(
    key: Seq<u8>,
    key_id: u32,
    tenant: u64,
    endpoint: Seq<u8>,
    nonce: Seq<u8>,
) -> Seq<u8> {
    seal_of(key, nonce, aad_of(key_id, endpoint), account_plain(tenant))
}

/// A minted credential splits into tag, canonical key-id digits, separator
/// and base64 payload, with the documented ciphertext length.
proof fn lemma_minted_shape(key: Seq<u8>, ep: Seq<u8>, k: u32, t: u64, n: Seq<u8>, v: Seq<u8>)
    requires
        mint_witness(key, k, t, ep, n, v),
    ensures
        v == prefix_bytes() + dec_bytes(k as nat) + seq![95u8] + b64_of(
            payload_of(ep, n, minted_ct(key, k, t, ep, n)),
        ),
        all_digits(dec_bytes(k as nat)),
        dec_bytes(k as nat).len() > 0,
        dec_val(dec_bytes(k as nat)) == k as nat,
        minted_ct(key, k, t, ep, n).len() == account_plain(t).len() + 16,
        account_plain(t).len() == 11 + dec_bytes(t as nat).len(),
        dec_bytes(t as nat).len() <= 20,
        prefix_bytes().len() == 20,
{
    lemma_lit_lens();
    lemma_dec_bytes_digits(k as nat);
    lemma_dec_round_trip(k as nat);
    lemma_dec_bytes_len_u64(t);
    assert(v =~= prefix_bytes() + dec_bytes(k as nat) + seq![95u8] + b64_of(
        payload_of(ep, n, minted_ct(key, k, t, ep, n)),
    ));
}

/// If a string is tag + digits + separator + tail, the first separator byte
/// after the tag stands exactly between the digits and the tail.
proof fn lemma_first_sep(v: Seq<u8>, kd: Seq<u8>, tail: Seq<u8>, idx: int)
    requires
        v == prefix_bytes() + kd + seq![95u8] + tail,
        all_digits(kd),
        kd.len() > 0,
        prefix_bytes().len() == 20,
        20 <= idx < v.len(),
        v[idx] == 95,
        forall|j: int| 20 <= j < idx ==> v[j] != 95,
    ensures
        idx == 20 + kd.len(),
        v.subrange(20, idx) == kd,
        v.subrange(idx + 1, v.len() as int) == tail,
{
    assert forall|j: int| 0 <= j < kd.len() implies v[20 + j] == kd[j] by {}
    assert(v[20 + kd.len() as int] == 95);
    if idx < 20 + kd.len() {
        assert(v[idx] == kd[idx - 20]);
        assert(48 <= kd[idx - 20] <= 57);
        assert(false);
    }
    if idx > 20 + kd.len() {
        assert(v[20 + kd.len() as int] != 95);
        assert(false);
    }
    assert(v.subrange(20, idx) =~= kd);
    assert(v.subrange(idx + 1, v.len() as int) =~= tail);
}

/// How a serialized payload splits into its fields.
proof fn lemma_payload_decomp(p: Seq<u8>, ep: Seq<u8>, n: Seq<u8>, ct: Seq<u8>)
    requires
        p == payload_of(ep, n, ct),
        ep.len() <= 255,
        n.len() == 12,
    ensures
        p.len() == 14 + ep.len() + ct.len(),
        p[0] == ep.len() as u8,
        p.subrange(1, 1 + ep.len() as int) == ep,
        p[1 + ep.len() as int] == 12u8,
        p.subrange(2 + ep.len() as int, 14 + ep.len() as int) == n,
        p.subrange(14 + ep.len() as int, p.len() as int) == ct,
{
    assert(p.subrange(1, 1 + ep.len() as int) =~= ep);
    assert(p.subrange(2 + ep.len() as int, 14 + ep.len() as int) =~= n);
    assert(p.subrange(14 + ep.len() as int, p.len() as int) =~= ct);
}

/// Under a mint witness, the exec decomposition of the credential is pinned:
/// the digits are the canonical key id digits and the tail is the payload's
/// base64 text.
proof fn lemma_witness_decomp(
    key: Seq<u8>,
    ep_w: Seq<u8>,
    k: u32,
    t: u64,
    n: Seq<u8>,
    v: Seq<u8>,
    idx: int,
    digits: Seq<u8>,
    tail: Seq<u8>,
)
    requires
        mint_witness(key, k, t, ep_w, n, v),
        20 <= idx < v.len(),
        v[idx] == 95,
        forall|j: int| 20 <= j < idx ==> v[j] != 95,
        digits == v.subrange(20, idx),
        tail == v.subrange(idx + 1, v.len() as int),
    ensures
        digits == dec_bytes(k as nat),
        parse_dec_spec(digits) == Some(k as u64),
        tail == b64_of(payload_of(ep_w, n, minted_ct(key, k, t, ep_w, n))),
        minted_ct(key, k, t, ep_w, n).len() == account_plain(t).len() + 16,
        account_plain(t).len() == 11 + dec_bytes(t as nat).len(),
        dec_bytes(t as nat).len() <= 20,
{
    lemma_minted_shape(key, ep_w, k, t, n, v);
    lemma_first_sep(
        v,
        dec_bytes(k as nat),
        b64_of(payload_of(ep_w, n, minted_ct(key, k, t, ep_w, n))),
        idx,
    );
}

/// Under a claimed valid decomposition, the exec split of the credential is
/// pinned: the digits before the separator are the claimed digits, and the
/// tail is the claimed payload's base64 text.
proof fn lemma_valid_decomp(
    key: Seq<u8>,
    endpoint: Seq<u8>,
    v: Seq<u8>,
    tenant: u64,
    kid: u32,
    kd: Seq<u8>,
    td: Seq<u8>,
    nonce: Seq<u8>,
    ct: Seq<u8>,
    idx: int,
    digits: Seq<u8>,
    tail: Seq<u8>,
)
    requires
        valid_parts(key, endpoint, v, tenant, kid, kd, td, nonce, ct),
        20 <= idx < v.len(),
        v[idx] == 95,
        forall|j: int| 20 <= j < idx ==> v[j] != 95,
        digits == v.subrange(20, idx),
        tail == v.subrange(idx + 1, v.len() as int),
    ensures
        digits == kd,
        parse_dec_spec(digits) == Some(kid as u64),
        tail == b64_of(payload_of(endpoint, nonce, ct)),
        ("account_id=".spec_bytes() + td).len() < 0x1000_0000,
        ct == seal_of(key, nonce, aad_of(kid, endpoint), "account_id=".spec_bytes() + td),
{
    lemma_lit_lens();
    assert(v =~= prefix_bytes() + kd + seq![95u8] + b64_of(payload_of(endpoint, nonce, ct)));
    lemma_first_sep(v, kd, b64_of(payload_of(endpoint, nonce, ct)), idx);
}

/// Copy of the byte range `[from, to)` of `s`.
pub fn sub_bytes(s: &Vec<u8>, from: usize, to: usize) -> (r: Vec<u8>)
    requires
        from <= to <= s@.len(),
    ensures
        r@ == s@.subrange(from as int, to as int),
{
    let mut r: Vec<u8> = Vec::new();
    let mut i: usize = from;
    while i < to
        invariant
            from <= i <= to <= s@.len(),
            r@ == s@.subrange(from as int, i as int),
        decreases to - i,
    {
        r.push(s[i]);
        proof {
            assert(r@ =~= s@.subrange(from as int, i + 1 as int));
        }
        i += 1;
    }
    r
}

/// Whether `v` begins with the bytes of `p`.
fn starts_with(v: &Vec<u8>, p: &Vec<u8>) -> (r: bool)
    ensures
        r == (v@.len() >= p@.len() && v@.subrange(0, p@.len() as int) == p@),
{
    if v.len() < p.len() {
        return false;
    }
    let n = p.len();
    let mut i: usize = 0;
    while i < n
        invariant
            n == p@.len() <= v@.len(),
            i <= n,
            forall|j: int| 0 <= j < i ==> v@[j] == p@[j],
        decreases n - i,
    {
        if v[i] != p[i] {
            assert(v@.subrange(0, n as int)[i as int] != p@[i as int]);
            return false;
        }
        i += 1;
    }
    proof {
        assert(v@.subrange(0, n as int) =~= p@);
    }
    true
}

/// Position of the first occurrence of `b` in `v` at or after `from`.
fn find_byte(v: &Vec<u8>, from: usize, b: u8) -> (r: Option<usize>)
    requires
        from <= v@.len(),
    ensures
        match r {
            Some(i) => from <= i < v@.len() && v@[i as int] == b && forall|j: int|
                from <= j < i ==> v@[j] != b,
            None => forall|j: int| from <= j < v@.len() ==> v@[j] != b,
        },
{
    let n = v.len();
    let mut i: usize = from;
    while i < n
        invariant
            from <= i <= n == v@.len(),
            forall|j: int| from <= j < i ==> v@[j] != b,
        decreases n - i,
    {
        if v[i] == b {
            return Some(i);
        }
        i += 1;
    }
    None
}

/// Why a credential was rejected. The taxonomy separates structural
/// (validation) failures from authentication failures; the client-facing
/// message of the latter does not say which check failed.
#[derive(Debug, PartialEq, Eq, Structural)]
pub enum CredentialError {
    /// The fixed tag at the front is missing.
    MissingPrefix,
    /// No underscore separates the key id from the payload, or the key id
    /// part is not a decimal number.
    MalformedKeyId,
    /// The key id parses but is outside the six-digit range.
    KeyIdOutOfRange,
    /// The payload is not canonical base64.
    InvalidBase64,
    /// The payload is too short to hold the endpoint length byte.
    MissingEndpointLength,
    /// The endpoint length byte overruns the payload.
    InvalidEndpointLength,
    /// The embedded endpoint differs from this deployment's endpoint.
    EndpointMismatch,
    /// The payload is too short to hold the nonce length byte.
    MissingNonceLength,
    /// The nonce length is not the scheme's, or overruns the payload.
    InvalidNonceLength,
    /// Authenticated decryption failed.
    DecryptFailed,
    /// The decrypted plaintext does not carry a tenant id.
    InvalidAccountId,
}

/// The error classes of the credential checks.
#[derive(Debug, PartialEq, Eq, Structural)]
pub enum ErrorClass {
    Validation,
    Auth,
}

pub open spec fn spec_class(e: CredentialError) -> ErrorClass {
    match e {
        CredentialError::EndpointMismatch => ErrorClass::Auth,
        CredentialError::DecryptFailed => ErrorClass::Auth,
        CredentialError::InvalidAccountId => ErrorClass::Auth,
        _ => ErrorClass::Validation,
    }
}

impl CredentialError {
    /// Structural failures are client errors; the rest are authentication
    /// failures.
    pub fn class(&self) -> (r: ErrorClass)
        ensures
            r == spec_class(*self),
    {
        match self {
            CredentialError::EndpointMismatch => ErrorClass::Auth,
            CredentialError::DecryptFailed => ErrorClass::Auth,
            CredentialError::InvalidAccountId => ErrorClass::Auth,
            _ => ErrorClass::Validation,
        }
    }

    /// A safe client-facing message. Every authentication failure maps to
    /// the same words, so the message does not leak which check failed.
    pub fn message(&self) -> (r: String)
        ensures
            spec_class(*self) == ErrorClass::Auth ==> r@ == "invalid report key"@,
    {
        match self {
            CredentialError::MissingPrefix => "invalid report key value: missing prefix".to_owned(),
            CredentialError::MalformedKeyId => "invalid report key value: invalid format".to_owned(),
            CredentialError::KeyIdOutOfRange => "invalid report key value: key id out of range".to_owned(),
            CredentialError::InvalidBase64 => "invalid report key value: bad encoding".to_owned(),
            CredentialError::MissingEndpointLength => "invalid report key value: missing endpoint length".to_owned(),
            CredentialError::InvalidEndpointLength => "invalid report key value: invalid endpoint length".to_owned(),
            CredentialError::MissingNonceLength => "invalid report key value: missing nonce length".to_owned(),
            CredentialError::InvalidNonceLength => "invalid report key value: invalid nonce length".to_owned(),
            CredentialError::EndpointMismatch => "invalid report key".to_owned(),
            CredentialError::DecryptFailed => "invalid report key".to_owned(),
            CredentialError::InvalidAccountId => "invalid report key".to_owned(),
        }
    }
}

/// A freshly minted credential admits a valid decomposition, with canonical
/// digit strings.
pub proof fn lemma_minted_valid(key: Seq<u8>, ep: Seq<u8>, v: Seq<u8>, t: u64, k: u32, n: Seq<u8>)
    requires
        mint_witness(key, k, t, ep, n, v),
    ensures
        valid_credential(key, ep, v, t, k),
{
    lemma_lit_lens();
    lemma_dec_bytes_digits(k as nat);
    lemma_dec_round_trip(k as nat);
    lemma_dec_bytes_digits(t as nat);
    lemma_dec_round_trip(t as nat);
    lemma_dec_bytes_len_u64(t);
    let ct = minted_ct(key, k, t, ep, n);
    assert(account_plain(t) == "account_id=".spec_bytes() + dec_bytes(t as nat));
    assert(valid_parts(key, ep, v, t, k, dec_bytes(k as nat), dec_bytes(t as nat), n, ct));
}

/// Validate a report credential against this deployment's key and endpoint,
/// failing closed at every step. On success the returned pair is the tenant
/// id sealed inside the credential and the key id it names; the caller must
/// still check that the key id is active. The contract promises: a value is
/// accepted exactly when it decomposes as a credential sealed under this key
/// for this endpoint, and the returned pair then names such a decomposition;
/// in particular a value fresh from `mint` under the same key and endpoint
/// is accepted with its tenant and key id, and one minted for any other
/// endpoint is rejected.
pub fn validate(key: &Vec<u8>, endpoint: &Vec<u8>, value: &Vec<u8>) -> (r: Result<
    (u64, u32),
    CredentialError,
>)
    requires
        key@.len() == 16,
        value@.len() < 0x1000_0000,
    ensures
        r is Ok ==> valid_credential(key@, endpoint@, value@, r->Ok_0.0, r->Ok_0.1),
        r is Err ==> forall|t: u64, k: u32| !valid_credential(key@, endpoint@, value@, t, k),
        forall|n: Seq<u8>, t: u64, k: u32|
            #[trigger] mint_witness(key@, k, t, endpoint@, n, value@) ==> r == Ok::<
                (u64, u32),
                CredentialError,
            >((t, k)),
        forall|n: Seq<u8>, t: u64, k: u32, ep2: Seq<u8>|
            #[trigger] mint_witness(key@, k, t, ep2, n, value@) && ep2 != endpoint@ ==> r is Err,
{
    proof {
        lemma_lit_lens();
    }
    let prefix_vec = "archodex_report_key_".as_bytes_vec();
    let plen = prefix_vec.len();

    if !starts_with(value, &prefix_vec) {
        proof {
            assert forall|t: u64, k2: u32|
                !valid_credential(key@, endpoint@, value@, t, k2) by {
                if valid_credential(key@, endpoint@, value@, t, k2) {
                    let (kd, td, nn, ct2) = choose|kd: Seq<u8>, td: Seq<u8>, nn: Seq<u8>, ct2: Seq<
                        u8,
                    >| valid_parts(key@, endpoint@, value@, t, k2, kd, td, nn, ct2);
                    assert(value@.subrange(0, 20) =~= prefix_bytes());
                    assert(false);
                }
            }
            assert forall|n: Seq<u8>, t: u64, k: u32|
                !mint_witness(key@, k, t, endpoint@, n, value@) by {
                if mint_witness(key@, k, t, endpoint@, n, value@) {
                    lemma_minted_valid(key@, endpoint@, value@, t, k, n);
                }
            }
        }
        return Err(CredentialError::MissingPrefix);
    }

    let idx_opt = find_byte(value, plen, 95);
    let idx = match idx_opt {
        Some(i) => i,
        None => {
            proof {
                assert forall|t: u64, k2: u32|
                    !valid_credential(key@, endpoint@, value@, t, k2) by {
                    if valid_credential(key@, endpoint@, value@, t, k2) {
                        let (kd, td, nn, ct2) = choose|
                            kd: Seq<u8>,
                            td: Seq<u8>,
                            nn: Seq<u8>,
                            ct2: Seq<u8>,
                        | valid_parts(key@, endpoint@, value@, t, k2, kd, td, nn, ct2);
                        assert(value@ =~= prefix_bytes() + kd + seq![95u8] + b64_of(
                            payload_of(endpoint@, nn, ct2),
                        ));
                        assert(value@[20 + kd.len() as int] == 95);
                        assert(false);
                    }
                }
                assert forall|n: Seq<u8>, t: u64, k: u32|
                    !mint_witness(key@, k, t, endpoint@, n, value@) by {
                    if mint_witness(key@, k, t, endpoint@, n, value@) {
                        lemma_minted_valid(key@, endpoint@, value@, t, k, n);
                    }
                }
            }
            return Err(CredentialError::MalformedKeyId);
        },
    };

    let digits = sub_bytes(value, plen, idx);
    let tail = sub_bytes(value, idx + 1, value.len());

    let kid_u64 = match parse_dec(&digits) {
        Some(x) => x,
        None => {
            proof {
                assert forall|t: u64, k2: u32|
                    !valid_credential(key@, endpoint@, value@, t, k2) by {
                    if valid_credential(key@, endpoint@, value@, t, k2) {
                        let (kd, td, nn, ct2) = choose|
                            kd: Seq<u8>,
                            td: Seq<u8>,
                            nn: Seq<u8>,
                            ct2: Seq<u8>,
                        | valid_parts(key@, endpoint@, value@, t, k2, kd, td, nn, ct2);
                        lemma_valid_decomp(
                            key@, endpoint@, value@, t, k2, kd, td, nn, ct2,
                            idx as int, digits@, tail@,
                        );
                        assert(false);
                    }
                }
                assert forall|n: Seq<u8>, t: u64, k: u32|
                    !mint_witness(key@, k, t, endpoint@, n, value@) by {
                    if mint_witness(key@, k, t, endpoint@, n, value@) {
                        lemma_minted_valid(key@, endpoint@, value@, t, k, n);
                    }
                }
            }
            return Err(CredentialError::MalformedKeyId);
        },
    };
    if kid_u64 < 100000 || kid_u64 > 999999 {
        proof {
            assert forall|t: u64, k2: u32|
                !valid_credential(key@, endpoint@, value@, t, k2) by {
                if valid_credential(key@, endpoint@, value@, t, k2) {
                    let (kd, td, nn, ct2) = choose|kd: Seq<u8>, td: Seq<u8>, nn: Seq<u8>, ct2: Seq<
                        u8,
                    >| valid_parts(key@, endpoint@, value@, t, k2, kd, td, nn, ct2);
                    lemma_valid_decomp(
                        key@, endpoint@, value@, t, k2, kd, td, nn, ct2,
                        idx as int, digits@, tail@,
                    );
                    assert(false);
                }
            }
            assert forall|n: Seq<u8>, t: u64, k: u32|
                !mint_witness(key@, k, t, endpoint@, n, value@) by {
                if mint_witness(key@, k, t, endpoint@, n, value@) {
                    lemma_minted_valid(key@, endpoint@, value@, t, k, n);
                }
            }
        }
        return Err(CredentialError::KeyIdOutOfRange);
    }
    let kid: u32 = kid_u64 as u32;

    let payload = match crate::crypto::b64_decode(&tail) {
        Some(p) => p,
        None => {
            proof {
                assert forall|t: u64, k2: u32|
                    !valid_credential(key@, endpoint@, value@, t, k2) by {
                    if valid_credential(key@, endpoint@, value@, t, k2) {
                        let (kd, td, nn, ct2) = choose|
                            kd: Seq<u8>,
                            td: Seq<u8>,
                            nn: Seq<u8>,
                            ct2: Seq<u8>,
                        | valid_parts(key@, endpoint@, value@, t, k2, kd, td, nn, ct2);
                        lemma_valid_decomp(
                            key@, endpoint@, value@, t, k2, kd, td, nn, ct2,
                            idx as int, digits@, tail@,
                        );
                        assert(false);
                    }
                }
                assert forall|n: Seq<u8>, t: u64, k: u32|
                    !mint_witness(key@, k, t, endpoint@, n, value@) by {
                    if mint_witness(key@, k, t, endpoint@, n, value@) {
                        lemma_minted_valid(key@, endpoint@, value@, t, k, n);
                    }
                }
            }
            return Err(CredentialError::InvalidBase64);
        },
    };

    if payload.len() == 0 {
        proof {
            assert forall|t: u64, k2: u32|
                !valid_credential(key@, endpoint@, value@, t, k2) by {
                if valid_credential(key@, endpoint@, value@, t, k2) {
                    let (kd, td, nn, ct2) = choose|kd: Seq<u8>, td: Seq<u8>, nn: Seq<u8>, ct2: Seq<
                        u8,
                    >| valid_parts(key@, endpoint@, value@, t, k2, kd, td, nn, ct2);
                    lemma_valid_decomp(
                        key@, endpoint@, value@, t, k2, kd, td, nn, ct2,
                        idx as int, digits@, tail@,
                    );
                    let pm = payload_of(endpoint@, nn, ct2);
                    lemma_payload_decomp(pm, endpoint@, nn, ct2);
                    assert(payload@ == pm);
                    assert(false);
                }
            }
            assert forall|n: Seq<u8>, t: u64, k: u32|
                !mint_witness(key@, k, t, endpoint@, n, value@) by {
                if mint_witness(key@, k, t, endpoint@, n, value@) {
                    lemma_minted_valid(key@, endpoint@, value@, t, k, n);
                }
            }
        }
        return Err(CredentialError::MissingEndpointLength);
    }

    let eplen = payload[0] as usize;
    if payload.len() <= 1 + eplen {
        proof {
            assert forall|t: u64, k2: u32|
                !valid_credential(key@, endpoint@, value@, t, k2) by {
                if valid_credential(key@, endpoint@, value@, t, k2) {
                    let (kd, td, nn, ct2) = choose|kd: Seq<u8>, td: Seq<u8>, nn: Seq<u8>, ct2: Seq<
                        u8,
                    >| valid_parts(key@, endpoint@, value@, t, k2, kd, td, nn, ct2);
                    lemma_valid_decomp(
                        key@, endpoint@, value@, t, k2, kd, td, nn, ct2,
                        idx as int, digits@, tail@,
                    );
                    let pm = payload_of(endpoint@, nn, ct2);
                    lemma_payload_decomp(pm, endpoint@, nn, ct2);
                    assert(payload@ == pm);
                    assert(false);
                }
            }
            assert forall|n: Seq<u8>, t: u64, k: u32|
                !mint_witness(key@, k, t, endpoint@, n, value@) by {
                if mint_witness(key@, k, t, endpoint@, n, value@) {
                    lemma_minted_valid(key@, endpoint@, value@, t, k, n);
                }
            }
        }
        return Err(CredentialError::InvalidEndpointLength);
    }

    let embedded = sub_bytes(&payload, 1, 1 + eplen);
    if !crate::ids::bytes_eq(&embedded, endpoint) {
        proof {
            assert forall|t: u64, k2: u32|
                !valid_credential(key@, endpoint@, value@, t, k2) by {
                if valid_credential(key@, endpoint@, value@, t, k2) {
                    let (kd, td, nn, ct2) = choose|kd: Seq<u8>, td: Seq<u8>, nn: Seq<u8>, ct2: Seq<
                        u8,
                    >| valid_parts(key@, endpoint@, value@, t, k2, kd, td, nn, ct2);
                    lemma_valid_decomp(
                        key@, endpoint@, value@, t, k2, kd, td, nn, ct2,
                        idx as int, digits@, tail@,
                    );
                    let pm = payload_of(endpoint@, nn, ct2);
                    lemma_payload_decomp(pm, endpoint@, nn, ct2);
                    assert(payload@ == pm);
                    assert(embedded@ == endpoint@);
                    assert(false);
                }
            }
            assert forall|n: Seq<u8>, t: u64, k: u32|
                !mint_witness(key@, k, t, endpoint@, n, value@) by {
                if mint_witness(key@, k, t, endpoint@, n, value@) {
                    lemma_minted_valid(key@, endpoint@, value@, t, k, n);
                }
            }
        }
        return Err(CredentialError::EndpointMismatch);
    }

    if payload.len() <= 1 + eplen + 1 {
        proof {
            assert forall|t: u64, k2: u32|
                !valid_credential(key@, endpoint@, value@, t, k2) by {
                if valid_credential(key@, endpoint@, value@, t, k2) {
                    let (kd, td, nn, ct2) = choose|kd: Seq<u8>, td: Seq<u8>, nn: Seq<u8>, ct2: Seq<
                        u8,
                    >| valid_parts(key@, endpoint@, value@, t, k2, kd, td, nn, ct2);
                    lemma_valid_decomp(
                        key@, endpoint@, value@, t, k2, kd, td, nn, ct2,
                        idx as int, digits@, tail@,
                    );
                    let pm = payload_of(endpoint@, nn, ct2);
                    lemma_payload_decomp(pm, endpoint@, nn, ct2);
                    assert(payload@ == pm);
                    assert(false);
                }
            }
            assert forall|n: Seq<u8>, t: u64, k: u32|
                !mint_witness(key@, k, t, endpoint@, n, value@) by {
                if mint_witness(key@, k, t, endpoint@, n, value@) {
                    lemma_minted_valid(key@, endpoint@, value@, t, k, n);
                }
            }
        }
        return Err(CredentialError::MissingNonceLength);
    }

    let nlen = payload[1 + eplen] as usize;
    if nlen != 12 || payload.len() <= 1 + eplen + 1 + nlen {
        proof {
            assert forall|t: u64, k2: u32|
                !valid_credential(key@, endpoint@, value@, t, k2) by {
                if valid_credential(key@, endpoint@, value@, t, k2) {
                    let (kd, td, nn, ct2) = choose|kd: Seq<u8>, td: Seq<u8>, nn: Seq<u8>, ct2: Seq<
                        u8,
                    >| valid_parts(key@, endpoint@, value@, t, k2, kd, td, nn, ct2);
                    lemma_valid_decomp(
                        key@, endpoint@, value@, t, k2, kd, td, nn, ct2,
                        idx as int, digits@, tail@,
                    );
                    let pm = payload_of(endpoint@, nn, ct2);
                    lemma_payload_decomp(pm, endpoint@, nn, ct2);
                    assert(payload@ == pm);
                    assert(false);
                }
            }
            assert forall|n: Seq<u8>, t: u64, k: u32|
                !mint_witness(key@, k, t, endpoint@, n, value@) by {
                if mint_witness(key@, k, t, endpoint@, n, value@) {
                    lemma_minted_valid(key@, endpoint@, value@, t, k, n);
                }
            }
        }
        return Err(CredentialError::InvalidNonceLength);
    }

    let nonce_v = sub_bytes(&payload, 2 + eplen, 2 + eplen + 12);
    let ct_v = sub_bytes(&payload, 2 + eplen + 12, payload.len());

    let aad = make_aad(kid, endpoint);
    let decrypted = crate::crypto::aead_open(key, &nonce_v, &aad, &ct_v);
    let m = match decrypted {
        Some(m) => m,
        None => {
            proof {
                assert forall|t: u64, k2: u32|
                    !valid_credential(key@, endpoint@, value@, t, k2) by {
                    if valid_credential(key@, endpoint@, value@, t, k2) {
                        let (kd, td, nn, ct2) = choose|
                            kd: Seq<u8>,
                            td: Seq<u8>,
                            nn: Seq<u8>,
                            ct2: Seq<u8>,
                        | valid_parts(key@, endpoint@, value@, t, k2, kd, td, nn, ct2);
                        lemma_valid_decomp(
                            key@, endpoint@, value@, t, k2, kd, td, nn, ct2,
                            idx as int, digits@, tail@,
                        );
                        let pm = payload_of(endpoint@, nn, ct2);
                        lemma_payload_decomp(pm, endpoint@, nn, ct2);
                        assert(payload@ == pm);
                        assert(kid == k2);
                        assert(nonce_v@ == nn);
                        assert(ct_v@ == ct2);
                        assert(false);
                    }
                }
                assert forall|n: Seq<u8>, t: u64, k: u32|
                    !mint_witness(key@, k, t, endpoint@, n, value@) by {
                    if mint_witness(key@, k, t, endpoint@, n, value@) {
                        lemma_minted_valid(key@, endpoint@, value@, t, k, n);
                    }
                }
            }
            return Err(CredentialError::DecryptFailed);
        },
    };

    let acc_lit = "account_id=".as_bytes_vec();
    if !starts_with(&m, &acc_lit) {
        proof {
            assert forall|t: u64, k2: u32|
                !valid_credential(key@, endpoint@, value@, t, k2) by {
                if valid_credential(key@, endpoint@, value@, t, k2) {
                    let (kd, td, nn, ct2) = choose|kd: Seq<u8>, td: Seq<u8>, nn: Seq<u8>, ct2: Seq<
                        u8,
                    >| valid_parts(key@, endpoint@, value@, t, k2, kd, td, nn, ct2);
                    lemma_valid_decomp(
                        key@, endpoint@, value@, t, k2, kd, td, nn, ct2,
                        idx as int, digits@, tail@,
                    );
                    let pm = payload_of(endpoint@, nn, ct2);
                    lemma_payload_decomp(pm, endpoint@, nn, ct2);
                    assert(payload@ == pm);
                    assert(kid == k2);
                    assert(m@ == "account_id=".spec_bytes() + td);
                    assert(m@.subrange(0, 11) =~= "account_id=".spec_bytes());
                    assert(false);
                }
            }
            assert forall|n: Seq<u8>, t: u64, k: u32|
                !mint_witness(key@, k, t, endpoint@, n, value@) by {
                if mint_witness(key@, k, t, endpoint@, n, value@) {
                    lemma_minted_valid(key@, endpoint@, value@, t, k, n);
                }
            }
        }
        return Err(CredentialError::InvalidAccountId);
    }

    let tdig = sub_bytes(&m, acc_lit.len(), m.len());
    let tenant = match parse_dec(&tdig) {
        Some(t0) => t0,
        None => {
            proof {
                assert forall|t: u64, k2: u32|
                    !valid_credential(key@, endpoint@, value@, t, k2) by {
                    if valid_credential(key@, endpoint@, value@, t, k2) {
                        let (kd, td, nn, ct2) = choose|
                            kd: Seq<u8>,
                            td: Seq<u8>,
                            nn: Seq<u8>,
                            ct2: Seq<u8>,
                        | valid_parts(key@, endpoint@, value@, t, k2, kd, td, nn, ct2);
                        lemma_valid_decomp(
                            key@, endpoint@, value@, t, k2, kd, td, nn, ct2,
                            idx as int, digits@, tail@,
                        );
                        let pm = payload_of(endpoint@, nn, ct2);
                        lemma_payload_decomp(pm, endpoint@, nn, ct2);
                        assert(payload@ == pm);
                        assert(kid == k2);
                        assert(m@ == "account_id=".spec_bytes() + td);
                        assert(tdig@ =~= td);
                        assert(false);
                    }
                }
                assert forall|n: Seq<u8>, t: u64, k: u32|
                    !mint_witness(key@, k, t, endpoint@, n, value@) by {
                    if mint_witness(key@, k, t, endpoint@, n, value@) {
                        lemma_minted_valid(key@, endpoint@, value@, t, k, n);
                    }
                }
            }
            return Err(CredentialError::InvalidAccountId);
        },
    };

    proof {
        // The accepted value decomposes as a valid credential for the
        // returned pair.
        assert(value@ =~= prefix_bytes() + digits@ + seq![95u8] + tail@);
        assert(payload@ =~= payload_of(endpoint@, nonce_v@, ct_v@)) by {
            assert(endpoint@.len() == eplen);
            assert(payload@[0] == eplen as u8);
            assert(payload@.subrange(1, 1 + eplen as int) == embedded@);
        }
        assert(m@ =~= "account_id=".spec_bytes() + tdig@);
        assert(tdig@.len() + 11 < 0x1000_0000);
        assert(valid_parts(
            key@,
            endpoint@,
            value@,
            tenant,
            kid,
            digits@,
            tdig@,
            nonce_v@,
            ct_v@,
        ));
        // A mint witness for this endpoint pins the returned pair.
        assert forall|n: Seq<u8>, t: u64, k: u32|
            #[trigger] mint_witness(key@, k, t, endpoint@, n, value@) implies tenant == t && kid
            == k by {
            lemma_witness_decomp(key@, endpoint@, k, t, n, value@, idx as int, digits@, tail@);
            let pm = payload_of(endpoint@, n, minted_ct(key@, k, t, endpoint@, n));
            lemma_payload_decomp(pm, endpoint@, n, minted_ct(key@, k, t, endpoint@, n));
            assert(payload@ == pm);
            assert(account_plain(t).len() < 0x1000_0000);
            assert(m@ == account_plain(t));
            assert(tdig@ =~= dec_bytes(t as nat));
            lemma_dec_bytes_digits(t as nat);
            lemma_dec_round_trip(t as nat);
        }
        // A mint witness for another endpoint cannot be accepted.
        assert forall|n: Seq<u8>, t: u64, k: u32, ep2: Seq<u8>|
            !(mint_witness(key@, k, t, ep2, n, value@) && ep2 != endpoint@) by {
            if mint_witness(key@, k, t, ep2, n, value@) && ep2 != endpoint@ {
                lemma_witness_decomp(key@, ep2, k, t, n, value@, idx as int, digits@, tail@);
                let pm2 = payload_of(ep2, n, minted_ct(key@, k, t, ep2, n));
                lemma_payload_decomp(pm2, ep2, n, minted_ct(key@, k, t, ep2, n));
                assert(payload@ == pm2);
                assert(ep2.len() == eplen);
                assert(embedded@ == ep2);
                assert(embedded@ == endpoint@);
                assert(false);
            }
        }
    }
    Ok((tenant, kid))
}

/// Decimal digit bytes of `n`, most significant first.
pub fn u64_dec(n: u64) -> (r: Vec<u8>)
    ensures
        r@ == dec_bytes(n as nat),
    decreases n,
{
    if n < 10 {
        let mut v: Vec<u8> = Vec::new();
        v.push(48 + n as u8);
        proof {
            assert(v@ =~= dec_bytes(n as nat));
        }
        v
    } else {
        let mut v = u64_dec(n / 10);
        v.push(48 + (n % 10) as u8);
        proof {
            assert(v@ =~= dec_bytes(n as nat));
        }
        v
    }
}

} // verus!
