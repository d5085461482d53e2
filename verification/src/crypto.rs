use vstd::prelude::*;

verus! {

/// The AES-128-GCM sealing function: what `Aes128Gcm::encrypt` returns for a
/// 16-byte key, a 12-byte nonce, associated data and a plaintext - the
/// ciphertext with the 16-byte authentication tag appended. The result
/// depends on the arguments alone; its pages-long definition is not restated
/// here, only named.
pub uninterp spec fn seal_of(key: Seq<u8>, nonce: Seq<u8>, aad: Seq<u8>, msg: Seq<u8>) -> Seq<u8>;

/// The standard base64 encoding (padded) of a byte string, as ASCII bytes.
pub uninterp spec fn b64_of(b: Seq<u8>) -> Seq<u8>;

/// Relies on aes_gcm::Aes128Gcm (Aead::encrypt): for a 16-byte key and a
/// 12-byte nonce, encryption of a message within the scheme's length bounds
/// succeeds and returns the ciphertext with the 16-byte tag appended.
#[verifier::external_body]
pub fn aead_seal(key: &Vec<u8>, nonce: &Vec<u8>, aad: &Vec<u8>, msg: &Vec<u8>) -> (r: Vec<u8>)
    requires
        key@.len() == 16,
        nonce@.len() == 12,
        aad@.len() < 0x1000_0000,
        msg@.len() < 0x1000_0000,
    ensures
        r@ == seal_of(key@, nonce@, aad@, msg@),
        r@.len() == msg@.len() + 16,
{
    let cipher = <aes_gcm::Aes128Gcm as aes_gcm::KeyInit>::new(
        aes_gcm::Key::<aes_gcm::Aes128Gcm>::from_slice(key),
    );
    let nonce = aes_gcm::aead::Nonce::<aes_gcm::Aes128Gcm>::from_slice(nonce);
    aes_gcm::aead::Aead::encrypt(
        &cipher,
        nonce,
        aes_gcm::aead::Payload { msg: msg.as_slice(), aad: aad.as_slice() },
    ).expect("encryption of an in-bounds message cannot fail")
}

/// Relies on aes_gcm::Aes128Gcm (Aead::decrypt): decryption returns a
/// plaintext exactly when the ciphertext-with-tag is what sealing that
/// plaintext under the same key, nonce and associated data produces - the
/// tag is recomputed over the ciphertext and the keystream is a bijection.
/// The plaintext is the ciphertext without its 16-byte tag.
#[verifier::external_body]
pub fn aead_open(key: &Vec<u8>, nonce: &Vec<u8>, aad: &Vec<u8>, ct: &Vec<u8>) -> (r: Option<
    Vec<u8>,
>)
    requires
        key@.len() == 16,
        nonce@.len() == 12,
        aad@.len() < 0x1000_0000,
    ensures
        r is Some ==> ct@ == seal_of(key@, nonce@, aad@, r->0@),
        r is Some ==> r->0@.len() + 16 == ct@.len(),
        forall|m: Seq<u8>|
            m.len() < 0x1000_0000 && ct@ == seal_of(key@, nonce@, aad@, m) ==> r is Some
                && r->0@ == m,
{
    let cipher = <aes_gcm::Aes128Gcm as aes_gcm::KeyInit>::new(
        aes_gcm::Key::<aes_gcm::Aes128Gcm>::from_slice(key),
    );
    let nonce = aes_gcm::aead::Nonce::<aes_gcm::Aes128Gcm>::from_slice(nonce);
    aes_gcm::aead::Aead::decrypt(
        &cipher,
        nonce,
        aes_gcm::aead::Payload { msg: ct.as_slice(), aad: aad.as_slice() },
    ).ok()
}

/// Relies on aes_gcm::Aes128Gcm (AeadCore::generate_nonce) with the
/// operating-system random number generator: a fresh 96-bit nonce. Nothing
/// else can be promised of a random value.
#[verifier::external_body]
pub fn random_nonce() -> (r: Vec<u8>)
    ensures
        r@.len() == 12,
{
    <aes_gcm::Aes128Gcm as aes_gcm::AeadCore>::generate_nonce(&mut rand::rngs::OsRng).to_vec()
}

/// Relies on base64::prelude::BASE64_STANDARD (Engine::encode): the standard
/// padded base64 text of the input, as ASCII bytes - four output bytes per
/// complete three-byte chunk, plus one padded quad for a remainder.
#[verifier::external_body]
pub fn b64_encode(b: &Vec<u8>) -> (r: Vec<u8>)
    ensures
        r@ == b64_of(b@),
        b@.len() % 3 == 0 ==> r@.len() == 4 * (b@.len() / 3),
        b@.len() % 3 != 0 ==> r@.len() == 4 * (b@.len() / 3) + 4,
{
    base64::Engine::encode(&base64::prelude::BASE64_STANDARD, b).into_bytes()
}

/// Relies on base64::prelude::BASE64_STANDARD (Engine::decode): the standard
/// engine requires canonical padding and rejects set trailing bits, so it
/// accepts exactly the canonical encodings and returns the unique preimage,
/// which is never longer than the encoded text.
#[verifier::external_body]
pub fn b64_decode(s: &Vec<u8>) -> (r: Option<Vec<u8>>)
    ensures
        r is Some ==> s@ == b64_of(r->0@),
        r is Some ==> r->0@.len() <= s@.len(),
        forall|b: Seq<u8>| s@ == b64_of(b) ==> r is Some && r->0@ == b,
{
    base64::Engine::decode(&base64::prelude::BASE64_STANDARD, s).ok()
}

} // verus!
