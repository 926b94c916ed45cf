//! The credential store: user names mapped to Argon2 password hashes in an
//! embedded sled database.
use argon2::password_hash::{PasswordHash, PasswordHasher, PasswordVerifier, Salt, SaltString};
use argon2::Argon2;
use rand::rngs::OsRng;
use rand::RngCore;
use vstd::prelude::*;
use vstd::utf8::{
    decode_utf8, encode_utf8, encode_utf8_decode_utf8, encode_utf8_valid_utf8, valid_utf8,
};

verus! {

#[verifier::external_type_specification]
#[verifier::external_body]
pub struct ExDb(sled::Db);

#[verifier::external_type_specification]
#[verifier::external_body]
pub struct ExSledError(sled::Error);

#[verifier::external_type_specification]
#[verifier::external_body]
pub struct ExHashError(argon2::password_hash::Error);

/// Whether Argon2 (default context) accepts `password` against the PHC
/// string `phc`; false where `phc` is not a PHC string.
pub uninterp spec fn phc_accepts(password: Seq<char>, phc: Seq<char>) -> bool;

/// Relies on sled's `Tree::get`: the value stored under `key`, if any. It
/// comes from disk, so nothing is promised of it.
#[verifier::external_body]
fn stored_value(db: &sled::Db, key: &str) -> (r: Result<Option<Vec<u8>>, sled::Error>) {
    match db.get(key) {
        Ok(Some(v)) => Ok(Some(v.to_vec())),
        Ok(None) => Ok(None),
        Err(e) => Err(e),
    }
}

/// Relies on sled's `Tree::insert`: stores `value` under `key`.
#[verifier::external_body]
fn store_value(db: &sled::Db, key: &str, value: &[u8]) -> (r: Result<(), sled::Error>) {
    match db.insert(key, value) {
        Ok(_) => Ok(()),
        Err(e) => Err(e),
    }
}

/// The PHC string that Argon2 (default context) makes of `password` with
/// the B64-encoded salt `salt`.
pub uninterp spec fn argon2_phc(password: Seq<char>, salt: Seq<char>) -> Seq<char>;

/// Relies on rand's `OsRng::try_fill_bytes` for 16 random bytes and on
/// password_hash's `SaltString::encode_b64`: a fresh random salt in B64 (16
/// bytes make 22 characters), or `None` where the operating system's random
/// source fails.
#[verifier::external_body]
fn fresh_salt() -> (r: Option<String>)
    ensures
        r matches Some(salt) ==> salt@.len() == 22,
{
    let mut bytes = [0u8; Salt::RECOMMENDED_LENGTH];
    match OsRng.try_fill_bytes(&mut bytes) {
        Ok(()) => match SaltString::encode_b64(&bytes) {
            Ok(salt) => Some(salt.as_str().to_owned()),
            Err(_) => None,
        },
        Err(_) => None,
    }
}

/// Relies on password_hash's `Salt::from_b64` and argon2's `hash_password`
/// (default context): the PHC string of `password` hashed with the B64 salt
/// `salt`, which depends on those two alone. Verifying `password` against
/// that string (`PasswordVerifier::verify_password` recomputes the hash with
/// the string's own parameters and salt) accepts it.
#[verifier::external_body]
fn hash_with_salt(password: &str, salt: &str) -> (r: Result<String, argon2::password_hash::Error>)
    ensures
        r matches Ok(h) ==> h@ == argon2_phc(password@, salt@),
        r matches Ok(h) ==> phc_accepts(password@, h@),
{
    match Salt::from_b64(salt) {
        Ok(s) => match Argon2::default().hash_password(password.as_bytes(), s) {
            Ok(h) => Ok(h.to_string()),
            Err(e) => Err(e),
        },
        Err(e) => Err(e),
    }
}

/// Relies on password_hash's `PasswordHash::new` and argon2's
/// `verify_password` (default context): whether `password` matches the PHC
/// string `phc`; a string that does not parse matches nothing.
#[verifier::external_body]
fn verify_phc(password: &str, phc: &str) -> (r: bool)
    ensures
        r == phc_accepts(password@, phc@),
{
    match PasswordHash::new(phc) {
        Ok(h) => Argon2::default().verify_password(password.as_bytes(), &h).is_ok(),
        Err(_) => false,
    }
}

/// Relies on `String::from_utf8`: the text that `bytes` encode, if they are
/// UTF-8.
#[verifier::external_body]
fn utf8_text(bytes: Vec<u8>) -> (r: Option<String>)
    ensures
        r is Some <==> valid_utf8(bytes@),
        r is Some ==> r->0@ == decode_utf8(bytes@),
{
    String::from_utf8(bytes).ok()
}

/// Whether a stored credential accepts `password`: it must be present, be
/// UTF-8 text, and be a PHC string that Argon2 accepts `password` against.
pub open spec fn credential_accepts(stored: Option<Seq<u8>>, password: Seq<char>) -> bool {
    match stored {
        Some(v) => valid_utf8(v) && phc_accepts(password, decode_utf8(v)),
        None => false,
    }
}

/// Checks `password` against what the store holds for a user.
pub fn credentials_match(stored: Option<Vec<u8>>, password: &str) -> (r: bool)
    ensures
        r == credential_accepts(
            match stored {
                Some(v) => Some(v@),
                None => None,
            },
            password@,
        ),
{
    match stored {
        None => false,
        Some(v) => match utf8_text(v) {
            Some(phc) => verify_phc(password, phc.as_str()),
            None => false,
        },
    }
}

/// How the result of creating a user follows from the lookup of its name.
pub open spec fn creation_outcome(
    existing: Result<Option<Vec<u8>>, sled::Error>,
    r: Result<bool, AuthError>,
) -> bool {
    &&& (existing is Err ==> (r matches Err(AuthError::Store(_))))
    &&& ((existing matches Ok(Some(_))) ==> (r matches Ok(false)))
    &&& ((existing matches Ok(None)) ==> !(r matches Ok(false)))
    &&& ((r matches Ok(false)) ==> (existing matches Ok(Some(_))))
    &&& ((r matches Ok(true)) ==> (existing matches Ok(None)))
    &&& ((r matches Err(AuthError::Hash(_))) ==> (existing matches Ok(None)))
    &&& ((r matches Err(AuthError::Salt)) ==> (existing matches Ok(None)))
}

/// What a new user's password is stored as: the Argon2 PHC string of the
/// password under some salt, which Argon2 accepts the password against.
pub open spec fn password_record(password: Seq<char>, record: Seq<char>) -> bool {
    &&& exists|salt: Seq<char>| record == argon2_phc(password, salt)
    &&& phc_accepts(password, record)
}

/// A new user's record, stored as the UTF-8 bytes of its text, is a
/// credential that accepts the user's password: creating a user and then
/// logging in with the same password succeeds.
pub proof fn lemma_record_logs_in(password: Seq<char>, record: Seq<char>)
    requires
        password_record(password, record),
    ensures
        credential_accepts(Some(encode_utf8(record)), password),
{
    encode_utf8_valid_utf8(record);
    encode_utf8_decode_utf8(record);
}

/// Builds the record stored for a new user: the Argon2 PHC string of
/// `password` under a fresh random salt.
pub fn hash_new_password(password: &str) -> (r: Result<String, AuthError>)
    ensures
        r matches Ok(h) ==> password_record(password@, h@),
        r is Err ==> (r matches Err(AuthError::Salt)) || (r matches Err(AuthError::Hash(_))),
{
    match fresh_salt() {
        None => Err(AuthError::Salt),
        Some(salt) => match hash_with_salt(password, salt.as_str()) {
            Err(e) => Err(AuthError::Hash(e)),
            Ok(phc) => {
                assert(phc@ == argon2_phc(password@, salt@));
                Ok(phc)
            },
        },
    }
}

/// Why a user could not be created.
#[derive(Debug)]
pub enum AuthError {
    Store(sled::Error),
    Hash(argon2::password_hash::Error),
    /// The operating system's random source failed.
    Salt,
}

/// The credential store: user names mapped to Argon2 PHC strings.
pub struct AuthStore {
    store: sled::Db,
}

impl AuthStore {
    pub fn new(store: sled::Db) -> Self {
        AuthStore { store }
    }

    /// Creates `username` with `password` unless it exists: `Ok(true)` when
    /// it was created, `Ok(false)` when it already existed. What the store
    /// holds comes from disk; whatever the lookup found, the result follows
    /// from it as `create_after_lookup` says.
    pub fn create_user(&self, username: &str, password: &str) -> (r: Result<bool, AuthError>)
        ensures
            exists|e: Result<Option<Vec<u8>>, sled::Error>| #[trigger] creation_outcome(e, r),
    {
        let existing = stored_value(&self.store, username);
        let ghost seen = existing;
        let r = self.create_after_lookup(username, password, existing);
        assert(creation_outcome(seen, r));
        r
    }

    /// What `create_user` does once it has looked `username` up: a lookup
    /// error is returned, an existing user is left alone (`Ok(false)`), and a
    /// new one gets the Argon2 PHC string of `password` under a fresh salt
    /// stored under its name; `Ok(true)` once that is stored.
    pub fn create_after_lookup(
        &self,
        username: &str,
        password: &str,
        existing: Result<Option<Vec<u8>>, sled::Error>,
    ) -> (r: Result<bool, AuthError>)
        ensures
            creation_outcome(existing, r),
    {
        match existing {
            Err(e) => Err(AuthError::Store(e)),
            Ok(Some(_)) => Ok(false),
            Ok(None) => match hash_new_password(password) {
                Err(e) => Err(e),
                Ok(record) => {
                    let bytes = record.as_str().as_bytes();
                    proof {
                        lemma_record_logs_in(password@, record@);
                        assert(credential_accepts(Some(bytes@), password@));
                    }
                    match store_value(&self.store, username, bytes) {
                        Ok(()) => Ok(true),
                        Err(e) => Err(AuthError::Store(e)),
                    }
                },
            },
        }
    }

    /// Whether `password` is the password of `username`; an unknown user
    /// gets `Ok(false)`, as does a stored value that is not a PHC string.
    pub fn login(&self, username: &str, password: &str) -> (r: Result<bool, sled::Error>)
        ensures
            r matches Ok(true) ==> exists|v: Seq<u8>|
                credential_accepts(Some(v), password@),
            r matches Ok(b) ==> exists|s: Option<Seq<u8>>| b == credential_accepts(s, password@),
    {
        match stored_value(&self.store, username) {
            Err(e) => Err(e),
            Ok(stored) => {
                let ghost s = match &stored {
                    Some(v) => Some(v@),
                    None => None,
                };
                let ok = credentials_match(stored, password);
                proof {
                    assert(ok == credential_accepts(s, password@));
                    if ok {
                        assert(credential_accepts(Some(s->0), password@));
                    }
                }
                Ok(ok)
            },
        }
    }
}

} // verus!
