use archodex_engine::codec::{
    mint, parse_dec, u64_dec, u64_dec_string, validate, CredentialError, ErrorClass,
};
use archodex_engine::report_key::ReportKey;
use base64::Engine;

const KEY: &[u8; 16] = b"0123456789abcdef";

fn key() -> Vec<u8> {
    KEY.to_vec()
}

fn ep(s: &str) -> Vec<u8> {
    s.as_bytes().to_vec()
}

#[test]
fn mint_then_validate_round_trips() {
    let value = mint(&key(), 100007, 42, &ep("ep1"));
    assert_eq!(validate(&key(), &ep("ep1"), &value), Ok((42, 100007)));
}

#[test]
fn validate_rejects_other_endpoint() {
    // A credential minted for one endpoint is categorically rejected at any
    // other.
    let value = mint(&key(), 100007, 42, &ep("ep1"));
    let r = validate(&key(), &ep("ep2"), &value);
    assert_eq!(r, Err(CredentialError::EndpointMismatch));
    assert_eq!(validate(&key(), &ep("ep1"), &value), Ok((42, 100007)));
}

#[test]
fn validate_rejects_other_key() {
    let value = mint(&key(), 100007, 42, &ep("ep1"));
    let other = b"fedcba9876543210".to_vec();
    assert_eq!(
        validate(&other, &ep("ep1"), &value),
        Err(CredentialError::DecryptFailed)
    );
}

#[test]
fn report_key_methods_round_trip() {
    let rk = ReportKey::new(Some(b"ci".to_vec()), 5);
    let value = rk.generate_value(&key(), 1000000001, &ep("api.example.test"));
    assert_eq!(
        ReportKey::validate_value(&key(), &ep("api.example.test"), &value),
        Ok((1000000001, rk.id()))
    );
}

#[test]
fn minted_credentials_are_ascii_text() {
    let value = mint(&key(), 100007, 42, &ep("ep1"));
    assert!(value.len() <= 512);
    let text = String::from_utf8(value).expect("credential bytes are a valid string");
    assert!(text.starts_with("archodex_report_key_100007_"));
    assert!(text.is_ascii());
}

#[test]
fn distinct_mints_use_distinct_nonces() {
    let a = mint(&key(), 100007, 42, &ep("ep1"));
    let b = mint(&key(), 100007, 42, &ep("ep1"));
    // Same parameters, fresh random nonce: the serialized values differ.
    assert_ne!(a, b);
    assert_eq!(validate(&key(), &ep("ep1"), &a), Ok((42, 100007)));
    assert_eq!(validate(&key(), &ep("ep1"), &b), Ok((42, 100007)));
}

/// Split a minted credential into its text head (tag, key id, separator) and
/// its decoded payload bytes.
fn split_credential(value: &[u8]) -> (Vec<u8>, Vec<u8>) {
    let prefix = b"archodex_report_key_";
    assert!(value.starts_with(prefix));
    let rest = &value[prefix.len()..];
    let us = rest.iter().position(|b| *b == b'_').unwrap();
    let head = value[..prefix.len() + us + 1].to_vec();
    let payload = base64::prelude::BASE64_STANDARD
        .decode(&rest[us + 1..])
        .unwrap();
    (head, payload)
}

fn reassemble(head: &[u8], payload: &[u8]) -> Vec<u8> {
    let mut out = head.to_vec();
    out.extend_from_slice(
        base64::prelude::BASE64_STANDARD
            .encode(payload)
            .as_bytes(),
    );
    out
}

#[test]
fn tampering_any_nonce_or_ciphertext_byte_is_rejected() {
    let value = mint(&key(), 100007, 42, &ep("ep1"));
    let (head, payload) = split_credential(&value);
    let eplen = payload[0] as usize;
    assert_eq!(&payload[1..1 + eplen], b"ep1");
    assert_eq!(payload[1 + eplen], 12);
    let crypto_region = 2 + eplen; // nonce, then ciphertext with its tag
    for pos in crypto_region..payload.len() {
        let mut tampered = payload.clone();
        tampered[pos] ^= 0x01;
        let forged = reassemble(&head, &tampered);
        // Authentication failure, never a silent wrong-tenant result.
        let r = validate(&key(), &ep("ep1"), &forged);
        assert_eq!(r, Err(CredentialError::DecryptFailed));
        assert_eq!(r.unwrap_err().class(), ErrorClass::Auth);
    }
}

#[test]
fn structural_failures_are_reported_step_by_step() {
    let k = key();
    let e1 = ep("ep1");
    // Step 1: missing prefix.
    assert_eq!(
        validate(&k, &e1, &b"not_a_credential".to_vec()),
        Err(CredentialError::MissingPrefix)
    );
    // Step 2: no separator, then non-decimal key id, then the range check.
    assert_eq!(
        validate(&k, &e1, &b"archodex_report_key_123456".to_vec()),
        Err(CredentialError::MalformedKeyId)
    );
    assert_eq!(
        validate(&k, &e1, &b"archodex_report_key_12ab_AAAA".to_vec()),
        Err(CredentialError::MalformedKeyId)
    );
    assert_eq!(
        validate(&k, &e1, &b"archodex_report_key_7_AAAA".to_vec()),
        Err(CredentialError::KeyIdOutOfRange)
    );
    // Step 3: not base64.
    assert_eq!(
        validate(&k, &e1, &b"archodex_report_key_100007_!!!".to_vec()),
        Err(CredentialError::InvalidBase64)
    );
    // Step 4: endpoint length checks.
    let b64 = |p: &[u8]| {
        let mut v = b"archodex_report_key_100007_".to_vec();
        v.extend_from_slice(base64::prelude::BASE64_STANDARD.encode(p).as_bytes());
        v
    };
    assert_eq!(
        validate(&k, &e1, &b64(b"")),
        Err(CredentialError::MissingEndpointLength)
    );
    assert_eq!(
        validate(&k, &e1, &b64(&[200, b'e'])),
        Err(CredentialError::InvalidEndpointLength)
    );
    assert_eq!(
        validate(&k, &e1, &b64(&[3, b'e', b'p', b'2', 9, 9, 9, 9])),
        Err(CredentialError::EndpointMismatch)
    );
    // Step 5: nonce length checks.
    assert_eq!(
        validate(&k, &e1, &b64(&[3, b'e', b'p', b'1'])),
        Err(CredentialError::InvalidEndpointLength)
    );
    assert_eq!(
        validate(&k, &e1, &b64(&[3, b'e', b'p', b'1', 12])),
        Err(CredentialError::MissingNonceLength)
    );
    let mut wrong_nonce_len = vec![3, b'e', b'p', b'1', 11];
    wrong_nonce_len.extend_from_slice(&[0; 16]);
    assert_eq!(
        validate(&k, &e1, &b64(&wrong_nonce_len)),
        Err(CredentialError::InvalidNonceLength)
    );
    // Step 5 continued: a claimed nonce that overruns the payload.
    let mut short = vec![3, b'e', b'p', b'1', 12];
    short.extend_from_slice(&[0; 12]);
    assert_eq!(
        validate(&k, &e1, &b64(&short)),
        Err(CredentialError::InvalidNonceLength)
    );
    // Step 5 end: garbage ciphertext fails authentication.
    let mut garbage = vec![3, b'e', b'p', b'1', 12];
    garbage.extend_from_slice(&[0; 12]);
    garbage.extend_from_slice(&[0; 24]);
    assert_eq!(
        validate(&k, &e1, &b64(&garbage)),
        Err(CredentialError::DecryptFailed)
    );
}

#[test]
fn plaintext_without_tenant_id_is_rejected() {
    // Seal a plaintext that does not carry an account id, under the right
    // key and associated data, and serialize it as a credential.
    let cipher = <aes_gcm::Aes128Gcm as aes_gcm::KeyInit>::new(
        aes_gcm::Key::<aes_gcm::Aes128Gcm>::from_slice(KEY),
    );
    let nonce_bytes = [7u8; 12];
    let nonce = aes_gcm::aead::Nonce::<aes_gcm::Aes128Gcm>::from_slice(&nonce_bytes);
    let ct = aes_gcm::aead::Aead::encrypt(
        &cipher,
        nonce,
        aes_gcm::aead::Payload {
            msg: b"hello",
            aad: b"key_id=100007;endpoint=ep1",
        },
    )
    .unwrap();
    let mut payload = vec![3, b'e', b'p', b'1', 12];
    payload.extend_from_slice(&nonce_bytes);
    payload.extend_from_slice(&ct);
    let mut value = b"archodex_report_key_100007_".to_vec();
    value.extend_from_slice(
        base64::prelude::BASE64_STANDARD
            .encode(&payload)
            .as_bytes(),
    );
    assert_eq!(
        validate(&key(), &ep("ep1"), &value),
        Err(CredentialError::InvalidAccountId)
    );
}

#[test]
fn zero_padded_key_digits_still_validate() {
    // The key id is bound through the associated data by its numeric value,
    // so zero-padding the digits in the text head changes nothing.
    let value = mint(&key(), 100007, 42, &ep("ep1"));
    let (head, payload) = split_credential(&value);
    assert_eq!(head, b"archodex_report_key_100007_".to_vec());
    let mut padded = b"archodex_report_key_0100007_".to_vec();
    padded.extend_from_slice(
        base64::prelude::BASE64_STANDARD
            .encode(&payload)
            .as_bytes(),
    );
    assert_eq!(validate(&key(), &ep("ep1"), &padded), Ok((42, 100007)));
}

#[test]
fn auth_failures_share_one_message() {
    let a = CredentialError::EndpointMismatch.message();
    let b = CredentialError::DecryptFailed.message();
    let c = CredentialError::InvalidAccountId.message();
    assert_eq!(a, b);
    assert_eq!(b, c);
    assert_eq!(CredentialError::EndpointMismatch.class(), ErrorClass::Auth);
    assert_eq!(
        CredentialError::MissingPrefix.class(),
        ErrorClass::Validation
    );
    assert_eq!(
        CredentialError::KeyIdOutOfRange.class(),
        ErrorClass::Validation
    );
}

#[test]
fn decimal_rendering_and_parsing_round_trip() {
    assert_eq!(u64_dec(0), b"0".to_vec());
    assert_eq!(u64_dec(42), b"42".to_vec());
    assert_eq!(u64_dec(9999999999), b"9999999999".to_vec());
    assert_eq!(u64_dec_string(120), "120");
    assert_eq!(parse_dec(&b"42".to_vec()), Some(42));
    assert_eq!(parse_dec(&b"007".to_vec()), Some(7));
    assert_eq!(parse_dec(&b"".to_vec()), None);
    assert_eq!(parse_dec(&b"4a2".to_vec()), None);
    assert_eq!(parse_dec(&b"18446744073709551615".to_vec()), Some(u64::MAX));
    assert_eq!(parse_dec(&b"18446744073709551616".to_vec()), None);
    assert_eq!(parse_dec(&b"99999999999999999999999".to_vec()), None);
}
