use base64::Engine;
use recall::crypto::Crypto;

#[test]
fn keyed_round_trip() {
    let engine = Crypto::new(Some("correct horse"), None);
    let payload: Vec<u8> = vec![0, 1, 2, 250, 251, 252, 253, 254, 255];
    let (nonce, ct) = engine.encrypt(&payload);
    assert!(!nonce.is_empty());
    assert_ne!(ct, base64::engine::general_purpose::STANDARD.encode(&payload));
    let back = engine.decrypt(&nonce, &ct).expect("round trip must decrypt");
    assert_eq!(back, payload);
}

#[test]
fn keyed_round_trip_empty_payload() {
    let engine = Crypto::new(Some("pw"), None);
    let (nonce, ct) = engine.encrypt(&[]);
    let back = engine.decrypt(&nonce, &ct).expect("round trip must decrypt");
    assert_eq!(back, Vec::<u8>::new());
}

#[test]
fn unkeyed_round_trip_and_wire_shape() {
    let engine = Crypto::new(None, None);
    let payload = b"plain text payload".to_vec();
    let (nonce, ct) = engine.encrypt(&payload);
    assert_eq!(nonce, "");
    assert_eq!(ct, base64::engine::general_purpose::STANDARD.encode(&payload));
    let back = engine.decrypt(&nonce, &ct).expect("unkeyed decrypt is a decode");
    assert_eq!(back, payload);
}

#[test]
fn fresh_nonce_per_call() {
    let engine = Crypto::new(Some("pw"), None);
    let (n1, _) = engine.encrypt(b"same payload");
    let (n2, _) = engine.encrypt(b"same payload");
    assert_ne!(n1, n2);
}

#[test]
fn key_rederivation_same_salt() {
    let first = Crypto::new(Some("the passphrase"), None);
    let salt = first.salt().expect("a keyed engine has a salt");
    let second = Crypto::new(Some("the passphrase"), Some(salt.clone()));
    assert_eq!(second.salt().as_deref(), Some(salt.as_str()));
    let (nonce, ct) = first.encrypt(b"derive me twice");
    let back = second.decrypt(&nonce, &ct).expect("re-derived key must decrypt");
    assert_eq!(back, b"derive me twice".to_vec());
    let (nonce2, ct2) = second.encrypt(b"and back again");
    let back2 = first.decrypt(&nonce2, &ct2).expect("both directions decrypt");
    assert_eq!(back2, b"and back again".to_vec());
}

#[test]
fn wrong_key_is_rejected() {
    let right = Crypto::new(Some("passphrase a"), None);
    let salt = right.salt().expect("salt");
    let wrong = Crypto::new(Some("passphrase b"), Some(salt));
    let (nonce, ct) = right.encrypt(b"top secret");
    assert!(wrong.decrypt(&nonce, &ct).is_err());
}

#[test]
fn corrupted_ciphertext_is_rejected() {
    let engine = Crypto::new(Some("pw"), None);
    let (nonce, ct) = engine.encrypt(b"some bytes");
    let tampered = base64::engine::general_purpose::STANDARD.encode({
        let mut raw = base64::engine::general_purpose::STANDARD.decode(&ct).unwrap();
        raw[0] ^= 1;
        raw
    });
    assert!(engine.decrypt(&nonce, &tampered).is_err());
}

#[test]
fn malformed_base64_is_rejected() {
    let engine = Crypto::new(Some("pw"), None);
    assert!(engine.decrypt("!!!", "also not base64 ###").is_err());
    let (_, ct) = engine.encrypt(b"x");
    assert!(engine.decrypt("not base64 ###", &ct).is_err());
}

#[test]
fn wrong_length_nonce_is_rejected() {
    let engine = Crypto::new(Some("pw"), None);
    let (_, ct) = engine.encrypt(b"x");
    let short_nonce = base64::engine::general_purpose::STANDARD.encode([1u8, 2, 3]);
    assert!(engine.decrypt(&short_nonce, &ct).is_err());
}

#[test]
fn rejected_salt_gets_replaced() {
    // A salt the KDF cannot accept (wrong alphabet) is replaced by a fresh
    // valid one, which the engine then reports for persistence.
    let engine = Crypto::new(Some("pw"), Some("!!not*b64!!".to_string()));
    let salt = engine.salt().expect("a keyed engine always carries a salt");
    assert_ne!(salt, "!!not*b64!!");
    // The replacement is usable: the same passphrase and salt re-derive.
    let again = Crypto::new(Some("pw"), Some(salt));
    let (nonce, ct) = engine.encrypt(b"payload");
    assert_eq!(again.decrypt(&nonce, &ct).unwrap(), b"payload".to_vec());
}

#[test]
fn unkeyed_engine_has_no_salt() {
    assert!(Crypto::new(None, None).salt().is_none());
    // A salt only matters for key derivation: an unkeyed engine holds none,
    // whatever was supplied.
    assert!(Crypto::new(None, Some("somesaltvalue".to_string())).salt().is_none());
}
