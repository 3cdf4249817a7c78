//! Field-level authenticated encryption with passphrase-derived keys.
//!
//! A [`Crypto`] engine is built from an optional passphrase and an optional
//! previously persisted salt. With a passphrase it derives a 256-bit key with
//! Argon2id and seals payloads with AES-256-GCM under a fresh random 96-bit
//! nonce per call; without one it is a transparent pass-through that still
//! produces the uniform two-part `(nonce, ciphertext)` record, with an empty
//! nonce and base64-encoded plaintext.

use vstd::prelude::*;

use aes_gcm::aead::Aead;
use aes_gcm::{Aes256Gcm, KeyInit, Nonce};
use argon2::password_hash::SaltString;
use argon2::Argon2;
use base64::Engine;
use rand::RngCore;
use zeroize::Zeroize;

verus! {

/// AES-GCM rejects plaintexts longer than this many bytes.
pub const AEAD_PT_LIMIT: u64 = 0x10_0000_0000;

/// The longest passphrase, in characters, that the key derivation call is
/// known to accept whatever its UTF-8 length turns out to be.
pub const PASSPHRASE_LIMIT: u64 = 0x3FFF_FFFF;

/// What base64 standard encoding returns for a byte sequence.
pub uninterp spec fn b64_encode(b: Seq<u8>) -> Seq<char>;

/// What base64 standard decoding returns: the bytes a canonical encoding
/// stands for, nothing for any other string.
pub uninterp spec fn b64_decode(s: Seq<char>) -> Option<Seq<u8>>;

/// The AES-256-GCM sealing of a plaintext under a key and nonce: the
/// counter-mode body followed by the 16-byte authentication tag.
pub uninterp spec fn aead_cipher(key: Seq<u8>, nonce: Seq<u8>, pt: Seq<u8>) -> Seq<u8>;

/// The 32-byte Argon2id key derived from a passphrase and a salt string.
pub uninterp spec fn kdf_key(pw: Seq<char>, salt: Seq<char>) -> Seq<u8>;

/// Whether a character is in the B64 salt alphabet the salt parser accepts.
pub open spec fn is_salt_char(c: char) -> bool {
    ||| 'a' <= c <= 'z'
    ||| 'A' <= c <= 'Z'
    ||| '0' <= c <= '9'
    ||| c == '/'
    ||| c == '+'
    ||| c == '.'
    ||| c == '-'
}

/// Whether key derivation accepts a salt string: every character in the B64
/// salt alphabet — which makes the string ASCII, so characters and bytes
/// coincide — and a byte length the salt parser allows (at most 64) that
/// also meets Argon2's minimum of 8.
pub open spec fn kdf_accepts(salt: Seq<char>) -> bool {
    &&& 8 <= salt.len() <= 64
    &&& forall|i: int| 0 <= i < salt.len() ==> is_salt_char(#[trigger] salt[i])
}

/// Whether some plaintext within the AES-GCM length limit seals to the given
/// ciphertext under the given key and nonce.
pub open spec fn aead_openable(key: Seq<u8>, nonce: Seq<u8>, ct: Seq<u8>) -> bool {
    exists|p: Seq<u8>| p.len() <= AEAD_PT_LIMIT && #[trigger] aead_cipher(key, nonce, p) == ct
}

/// The plaintext that seals to the given ciphertext, where one exists.
pub open spec fn aead_opened(key: Seq<u8>, nonce: Seq<u8>, ct: Seq<u8>) -> Seq<u8> {
    choose|p: Seq<u8>| p.len() <= AEAD_PT_LIMIT && #[trigger] aead_cipher(key, nonce, p) == ct
}

/// Relies on base64's `general_purpose::STANDARD.encode`; decoding the
/// canonical encoding returns the input bytes.
#[verifier::external_body]
fn b64_encode_bytes(b: &[u8]) -> (r: String)
    ensures
        r@ == b64_encode(b@),
        b64_decode(r@) == Some(b@),
{
    base64::engine::general_purpose::STANDARD.encode(b)
}

/// Relies on base64's `general_purpose::STANDARD.decode`, which accepts
/// exactly the canonical padded encodings and returns the bytes they encode.
#[verifier::external_body]
fn b64_decode_str(s: &str) -> (r: Option<Vec<u8>>)
    ensures
        match r {
            Some(v) => b64_decode(s@) == Some(v@),
            None => b64_decode(s@) is None,
        },
{
    base64::engine::general_purpose::STANDARD.decode(s).ok()
}

/// Relies on aes_gcm's `Aes256Gcm` (`Aead::encrypt`): under a fixed key and
/// nonce the ciphertext is a function of the plaintext alone — counter-mode
/// body plus appended tag — and the keystream makes distinct plaintexts give
/// distinct bodies, so no other plaintext seals to the same ciphertext.
/// Encryption only fails beyond the plaintext length limit, which the
/// precondition rules out.
#[verifier::external_body]
fn aead_encrypt(key: &[u8], nonce: &[u8], data: &[u8]) -> (r: Vec<u8>)
    requires
        key@.len() == 32,
        nonce@.len() == 12,
        data@.len() <= AEAD_PT_LIMIT,
    ensures
        r@ == aead_cipher(key@, nonce@, data@),
        r@.len() == data@.len() + 16,
        forall|p: Seq<u8>|
            p.len() <= AEAD_PT_LIMIT && #[trigger] aead_cipher(key@, nonce@, p) == r@ ==> p
                == data@,
{
    let cipher = Aes256Gcm::new(aes_gcm::Key::<Aes256Gcm>::from_slice(key));
    cipher.encrypt(Nonce::from_slice(nonce), data).expect("plaintext within the length limit")
}

/// Relies on aes_gcm's `Aes256Gcm` (`Aead::decrypt`): it recomputes the tag
/// over the ciphertext body and succeeds exactly when the tag matches, in
/// which case the returned plaintext is the one the body unmasks to — the
/// unique plaintext that seals to this ciphertext under this key and nonce.
/// The precondition keeps the ciphertext within the plaintext limit plus the
/// 16-byte tag; the cipher itself only rejects bodies beyond that, so a
/// longer ciphertext could decrypt to a plaintext past the limit.
#[verifier::external_body]
fn aead_decrypt(key: &[u8], nonce: &[u8], ct: &[u8]) -> (r: Option<Vec<u8>>)
    requires
        key@.len() == 32,
        nonce@.len() == 12,
        ct@.len() <= AEAD_PT_LIMIT + 16,
    ensures
        match r {
            Some(p) => {
                &&& aead_cipher(key@, nonce@, p@) == ct@
                &&& p@.len() + 16 == ct@.len()
                &&& p@.len() <= AEAD_PT_LIMIT
                &&& forall|q: Seq<u8>|
                    q.len() <= AEAD_PT_LIMIT && #[trigger] aead_cipher(key@, nonce@, q) == ct@
                        ==> q == p@
            },
            None => !aead_openable(key@, nonce@, ct@),
        },
{
    let cipher = Aes256Gcm::new(aes_gcm::Key::<Aes256Gcm>::from_slice(key));
    cipher.decrypt(Nonce::from_slice(nonce), ct).ok()
}

/// Relies on argon2's `Argon2::default().hash_password_into` over the UTF-8
/// passphrase bytes and the salt string itself (as password-hash's
/// `SaltString::as_salt().as_str()` presents it): the 32 derived bytes are a
/// function of the two strings alone. Derivation succeeds exactly when the
/// salt string passes `SaltString::from_b64` and meets Argon2's length
/// bounds; the raw key bytes are wiped (zeroize) once copied out.
#[verifier::external_body]
fn derive_key(pw: &str, salt: &str) -> (r: Option<Vec<u8>>)
    requires
        pw@.len() <= PASSPHRASE_LIMIT,
    ensures
        r is Some <==> kdf_accepts(salt@),
        match r {
            Some(k) => k@ == kdf_key(pw@, salt@) && k@.len() == 32,
            None => true,
        },
{
    let salt_obj = match SaltString::from_b64(salt) {
        Ok(s) => s,
        Err(_) => return None,
    };
    let mut key_bytes = [0u8; 32];
    let salt_bytes: &[u8] = salt_obj.as_salt().as_str().as_bytes();
    let ok = Argon2::default().hash_password_into(pw.as_bytes(), salt_bytes, &mut key_bytes);
    let out = if ok.is_ok() { Some(key_bytes.to_vec()) } else { None };
    key_bytes.zeroize();
    out
}

/// Relies on password-hash's `SaltString::generate`: 16 random bytes from the
/// operating system, B64-encoded into a 22-character salt string, which both
/// the salt parser and Argon2 accept.
#[verifier::external_body]
fn generate_salt() -> (r: String)
    ensures
        kdf_accepts(r@),
{
    SaltString::generate(&mut rand::rngs::OsRng).as_str().to_owned()
}

/// Relies on rand's `OsRng::fill_bytes` filling the whole buffer from the
/// operating system's random source.
#[verifier::external_body]
fn random_nonce() -> (r: Vec<u8>)
    ensures
        r@.len() == 12,
{
    let mut bytes = [0u8; 12];
    rand::rngs::OsRng.fill_bytes(&mut bytes);
    bytes.to_vec()
}

/// The engine that encrypts and decrypts field payloads. Holds the derived
/// key, if any, and the salt string that key was derived from.
pub struct Crypto {
    key: Option<Vec<u8>>,
    salt: Option<String>,
}

impl Crypto {
    /// The derived key, as the contracts speak of it.
    pub closed spec fn spec_key(self) -> Option<Seq<u8>> {
        match self.key {
            Some(k) => Some(k@),
            None => None,
        }
    }

    /// The salt in use, as the contracts speak of it.
    pub closed spec fn spec_salt(self) -> Option<Seq<char>> {
        match self.salt {
            Some(s) => Some(s@),
            None => None,
        }
    }

    /// A well-formed engine holds a 32-byte key or none.
    pub closed spec fn wf(self) -> bool {
        match self.key {
            Some(k) => k@.len() == 32,
            None => true,
        }
    }

    /// Whether the engine encrypts at all.
    pub open spec fn keyed(self) -> bool {
        self.spec_key() is Some
    }

    /// What `decrypt` recovers from a stored `(nonce, ciphertext)` pair of
    /// base64 strings: the bytes the pair stands for, or nothing when the
    /// pair is not one this engine's key (or pass-through mode) can explain.
    /// A keyed pair must carry a 12-byte nonce and a ciphertext no longer
    /// than a limit-length plaintext plus its tag — nothing within the
    /// plaintext limit seals to a longer ciphertext anyway.
    pub closed spec fn decryption_of(self, nonce_b64: Seq<char>, ct_b64: Seq<char>) -> Option<
        Seq<u8>,
    > {
        match b64_decode(ct_b64) {
            None => None,
            Some(data) => match self.spec_key() {
                None => Some(data),
                Some(k) => match b64_decode(nonce_b64) {
                    None => None,
                    Some(nb) => if nb.len() == 12 && data.len() <= AEAD_PT_LIMIT + 16
                        && aead_openable(k, nb, data) {
                        Some(aead_opened(k, nb, data))
                    } else {
                        None
                    },
                },
            },
        }
    }

    /// Builds an engine. With a passphrase, the key is derived from it and
    /// the supplied salt when the KDF accepts that salt; otherwise — no salt
    /// supplied, or one the KDF rejects — from a freshly generated salt,
    /// which the engine then reports for persistence. Without a passphrase
    /// the engine is a pass-through and holds no salt, whatever was
    /// supplied.
    pub fn new(password: Option<&str>, salt: Option<String>) -> (r: Crypto)
        requires
            match password {
                Some(pw) => pw@.len() <= PASSPHRASE_LIMIT,
                None => true,
            },
        ensures
            r.wf(),
            match password {
                None => {
                    &&& r.spec_key() is None
                    &&& r.spec_salt() is None
                },
                Some(pw) => {
                    &&& r.spec_salt() is Some
                    &&& kdf_accepts(r.spec_salt().unwrap())
                    &&& r.spec_key() == Some(kdf_key(pw@, r.spec_salt().unwrap()))
                    &&& (match salt {
                        Some(s) => kdf_accepts(s@) ==> r.spec_salt() == Some(s@),
                        None => true,
                    })
                },
            },
    {
        match password {
            Some(pw) => {
                let salt_string: String = match salt {
                    Some(s) => s,
                    None => generate_salt(),
                };
                match derive_key(pw, salt_string.as_str()) {
                    Some(k) => Crypto { key: Some(k), salt: Some(salt_string) },
                    None => {
                        let fresh = generate_salt();
                        let derived = derive_key(pw, fresh.as_str());
                        Crypto { key: Some(derived.unwrap()), salt: Some(fresh) }
                    },
                }
            },
            None => Crypto { key: None, salt: None },
        }
    }

    /// Encrypts a payload into a `(nonce, ciphertext)` pair of base64
    /// strings. Keyed, the nonce is 12 fresh random bytes and the ciphertext
    /// the AES-GCM sealing under them; unkeyed, the nonce is empty and the
    /// ciphertext the base64 encoding of the plaintext itself. Either way the
    /// pair decrypts back to exactly the payload.
    pub fn encrypt(&self, data: &[u8]) -> (r: (String, String))
        requires
            self.wf(),
            data@.len() <= AEAD_PT_LIMIT,
        ensures
            self.decryption_of(r.0@, r.1@) == Some(data@),
            !self.keyed() ==> r.0@ =~= Seq::<char>::empty() && r.1@ == b64_encode(data@),
    {
        match &self.key {
            Some(k) => {
                let nonce = random_nonce();
                let ct = aead_encrypt(k.as_slice(), nonce.as_slice(), data);
                let nonce_b64 = b64_encode_bytes(nonce.as_slice());
                let ct_b64 = b64_encode_bytes(ct.as_slice());
                proof {
                    assert(aead_openable(k@, nonce@, ct@));
                    assert(aead_opened(k@, nonce@, ct@) == data@);
                }
                (nonce_b64, ct_b64)
            },
            None => {
                let ct_b64 = b64_encode_bytes(data);
                (String::new(), ct_b64)
            },
        }
    }

    /// Decrypts a stored `(nonce, ciphertext)` pair. Keyed, this fails on a
    /// pair that is not base64, whose nonce is not 12 bytes, whose
    /// ciphertext is longer than any encryption this engine produces, or
    /// whose ciphertext does not authenticate under this key and nonce — a
    /// wrong key, corrupted ciphertext, or corrupted nonce all land in the
    /// last case. Unkeyed, it simply decodes the ciphertext field.
    pub fn decrypt(&self, nonce_b64: &str, ct_b64: &str) -> (r: Result<Vec<u8>, String>)
        requires
            self.wf(),
        ensures
            match r {
                Ok(p) => self.decryption_of(nonce_b64@, ct_b64@) == Some(p@),
                Err(_) => self.decryption_of(nonce_b64@, ct_b64@) is None,
            },
    {
        let data = match b64_decode_str(ct_b64) {
            Some(d) => d,
            None => {
                return Err("base64 decode error".to_owned());
            },
        };
        match &self.key {
            Some(k) => {
                let nonce = match b64_decode_str(nonce_b64) {
                    Some(n) => n,
                    None => {
                        return Err("base64 nonce decode error".to_owned());
                    },
                };
                if nonce.len() != 12 {
                    return Err("malformed nonce".to_owned());
                }
                if data.len() as u64 > AEAD_PT_LIMIT + 16 {
                    return Err("ciphertext too long".to_owned());
                }
                match aead_decrypt(k.as_slice(), nonce.as_slice(), data.as_slice()) {
                    Some(p) => {
                        proof {
                            assert(aead_openable(k@, nonce@, data@));
                            assert(aead_opened(k@, nonce@, data@) == p@);
                        }
                        Ok(p)
                    },
                    None => Err("decrypt error".to_owned()),
                }
            },
            None => Ok(data),
        }
    }

    /// The salt in use, for persistence: the one the key was derived from
    /// when the engine is keyed, and `None` when unkeyed.
    pub fn salt(&self) -> (r: Option<String>)
        ensures
            match r {
                Some(s) => self.spec_salt() == Some(s@),
                None => self.spec_salt() is None,
            },
    {
        match &self.salt {
            Some(s) => Some(s.clone()),
            None => None,
        }
    }

    /// Whether the engine encrypts at all.
    pub fn is_keyed(&self) -> (r: bool)
        ensures
            r == self.keyed(),
    {
        self.key.is_some()
    }
}

/// Key re-derivation: two engines whose keys came out of the key-derivation
/// function for the same passphrase and the same persisted salt hold the same
/// key, and therefore recover the same bytes from any stored pair — whatever
/// either of them encrypted, the other decrypts.
pub proof fn lemma_key_rederivation(
    pw: Seq<char>,
    salt: Seq<char>,
    a: Crypto,
    b: Crypto,
    nonce_b64: Seq<char>,
    ct_b64: Seq<char>,
)
    requires
        a.spec_key() == Some(kdf_key(pw, salt)),
        b.spec_key() == Some(kdf_key(pw, salt)),
    ensures
        a.spec_key() == b.spec_key(),
        a.decryption_of(nonce_b64, ct_b64) == b.decryption_of(nonce_b64, ct_b64),
{
}

} // verus!
